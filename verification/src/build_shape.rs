//! The shape of the tree built from diff entries: where its folders stand.

use vstd::prelude::*;

use crate::build_laws::fmset;
use crate::text::{
    distinct_paths, good_parts, is_rooted, join_key, lemma_key_of_join, lemma_path_key_good,
    path_key, plain_part, same_path,
};
use crate::tree_laws::{flag_paths, folder_flags, folder_flags_of, lemma_files_of_single};
use crate::tree_model::{
    entry_file, files, files_of, first_folder_from, insert_pos_from, inserted, inserted_all,
    lemma_files_of_push, lemma_first_folder_from, lemma_insert_pos_bound, merged, merged_all,
    collapsed, sorted_forest, sorted_level, sorted_node, sorted_nodes, with_collapsed, wrapped,
    SEntry, SNode,
};


verus! {

/// No two folders among siblings share a name.
pub open spec fn folder_names_distinct(s: Seq<SNode>) -> bool {
    forall|i: int, j: int|
        0 <= i < s.len() && 0 <= j < s.len() && i != j && s[i] is Folder && s[j] is Folder
            ==> #[trigger] s[i].name() != #[trigger] s[j].name()
}

/// The shape of a tree drawn below the components `pre`: every file's path
/// has as components those of the folders above it and its name, every
/// folder's path is the path of its components (its parent's components
/// and its name, components as a path has them), every folder holds a file, and no two folders among the children
/// of one folder share a name.
pub open spec fn shaped(n: SNode, pre: Seq<Seq<char>>) -> bool
    decreases n,
{
    match n {
        SNode::File(f) => path_key(f.path) == pre.push(f.name),
        SNode::Folder { name, path, children, .. } => {
            &&& path == join_key(pre.push(name))
            &&& good_parts(pre.push(name))
            &&& files_of(children).len() > 0
            &&& folder_names_distinct(children)
            &&& forall|i: int| 0 <= i < children.len() ==> shaped(#[trigger] children[i], pre.push(name))
        },
    }
}

/// Siblings drawn below `pre`, each shaped, no two folders with one name.
pub open spec fn all_shaped(s: Seq<SNode>, pre: Seq<Seq<char>>) -> bool {
    &&& folder_names_distinct(s)
    &&& forall|i: int| 0 <= i < s.len() ==> shaped(#[trigger] s[i], pre)
}

proof fn lemma_wrapped_shaped(node: SNode, fc: Seq<Seq<char>>, k: int)
    requires
        node is File,
        shaped(node, fc),
        0 <= k <= fc.len(),
        good_parts(fc),
    ensures
        shaped(wrapped(node, fc, k), fc.take(k)),
        files(wrapped(node, fc, k)) == files(node),
    decreases fc.len() - k,
{
    if k < fc.len() {
        lemma_wrapped_shaped(node, fc, k + 1);
        let w = wrapped(node, fc, k + 1);
        assert(fc.take(k).push(fc[k]) =~= fc.take(k + 1));
        let t = fc.take(k + 1);
        assert forall|i: int| 1 <= i < t.len() implies plain_part(#[trigger] t[i]) by {
            assert(t[i] == fc[i]);
        }
        lemma_files_of_single(w);
        assert(seq![w][0] == w);
    } else {
        assert(fc.take(k) =~= fc);
    }
}

/// Merging never loses files.
proof fn lemma_merged_len(s: Seq<SNode>, n: SNode)
    ensures
        files_of(merged(s, n)).len() >= files_of(s).len(),
    decreases n, 0nat,
{
    broadcast use vstd::seq_lib::to_multiset_len, vstd::multiset::group_multiset_axioms;
    match n {
        SNode::File(_) => {
            lemma_files_of_push(s, n);
        },
        SNode::Folder { name, children, .. } => {
            let k = first_folder_from(s, name, 0);
            lemma_first_folder_from(s, name, 0);
            if k < 0 {
                lemma_files_of_push(s, n);
            } else {
                let t = s[k].children();
                lemma_merged_all_len(t, children);
                let x = SNode::Folder {
                    name: s[k].name(),
                    path: s[k].path(),
                    children: merged_all(t, children),
                    expanded: s[k] matches SNode::Folder { expanded, .. } && expanded,
                };
                let u = s.update(k, x);
                crate::build_laws::lemma_fmset_split3(s, k);
                crate::build_laws::lemma_fmset_split3(u, k);
                assert(u.take(k) =~= s.take(k));
                assert(u.skip(k + 1) =~= s.skip(k + 1));
                assert(u[k] == x);
                assert(files(s[k]) == files_of(t));
                assert(fmset(u).len() == files_of(u).len());
                assert(fmset(s).len() == files_of(s).len());
            }
        },
    }
}

proof fn lemma_merged_all_len(s: Seq<SNode>, ns: Seq<SNode>)
    ensures
        files_of(merged_all(s, ns)).len() >= files_of(s).len(),
    decreases ns, 1nat,
{
    if ns.len() > 0 {
        let t = ns.subrange(0, ns.len() - 1);
        lemma_merged_all_len(s, t);
        lemma_merged_len(merged_all(s, t), ns[ns.len() - 1]);
    }
}

proof fn lemma_merged_shaped(s: Seq<SNode>, n: SNode, pre: Seq<Seq<char>>)
    requires
        all_shaped(s, pre),
        shaped(n, pre),
    ensures
        all_shaped(merged(s, n), pre),
    decreases n, 0nat,
{
    match n {
        SNode::File(_) => {
            let r = merged(s, n);
            if r != s {
                assert(r == s.push(n));
                assert forall|i: int| 0 <= i < r.len() implies shaped(#[trigger] r[i], pre) by {
                    if i < s.len() {
                        assert(r[i] == s[i]);
                    }
                }
                assert forall|i: int, j: int|
                    0 <= i < r.len() && 0 <= j < r.len() && i != j && r[i] is Folder && r[j] is Folder
                        implies #[trigger] r[i].name() != #[trigger] r[j].name() by {
                    assert(r[i] == s[i] && r[j] == s[j]);
                }
            }
        },
        SNode::Folder { name, path, children, expanded } => {
            let k = first_folder_from(s, name, 0);
            lemma_first_folder_from(s, name, 0);
            if k < 0 {
                let r = s.push(n);
                assert forall|i: int| 0 <= i < r.len() implies shaped(#[trigger] r[i], pre) by {
                    if i < s.len() {
                        assert(r[i] == s[i]);
                    }
                }
                assert forall|i: int, j: int|
                    0 <= i < r.len() && 0 <= j < r.len() && i != j && r[i] is Folder && r[j] is Folder
                        implies #[trigger] r[i].name() != #[trigger] r[j].name() by {
                    if i < s.len() && j < s.len() {
                        assert(r[i] == s[i] && r[j] == s[j]);
                    } else if i < s.len() {
                        assert(r[i] == s[i]);
                        assert(!(s[i] is Folder && s[i].name() == name));
                    } else {
                        assert(r[j] == s[j]);
                        assert(!(s[j] is Folder && s[j].name() == name));
                    }
                }
            } else {
                let t = s[k].children();
                assert(shaped(s[k], pre));
                assert(s[k].name() == name);
                assert(all_shaped(t, pre.push(name)));
                assert forall|i: int| 0 <= i < children.len() implies shaped(#[trigger] children[i], pre.push(name)) by {}
                lemma_merged_all_shaped(t, children, pre.push(name));
                lemma_merged_all_len(t, children);
                let x = SNode::Folder {
                    name: s[k].name(),
                    path: s[k].path(),
                    children: merged_all(t, children),
                    expanded: s[k] matches SNode::Folder { expanded, .. } && expanded,
                };
                let r = s.update(k, x);
                assert(shaped(x, pre));
                assert forall|i: int| 0 <= i < r.len() implies shaped(#[trigger] r[i], pre) by {
                    if i != k {
                        assert(r[i] == s[i]);
                    }
                }
                assert forall|i: int, j: int|
                    0 <= i < r.len() && 0 <= j < r.len() && i != j && r[i] is Folder && r[j] is Folder
                        implies #[trigger] r[i].name() != #[trigger] r[j].name() by {
                    if i != k {
                        assert(r[i] == s[i]);
                    }
                    if j != k {
                        assert(r[j] == s[j]);
                    }
                }
            }
        },
    }
}

proof fn lemma_merged_all_shaped(s: Seq<SNode>, ns: Seq<SNode>, pre: Seq<Seq<char>>)
    requires
        all_shaped(s, pre),
        forall|i: int| 0 <= i < ns.len() ==> shaped(#[trigger] ns[i], pre),
    ensures
        all_shaped(merged_all(s, ns), pre),
    decreases ns, 1nat,
{
    if ns.len() > 0 {
        let t = ns.subrange(0, ns.len() - 1);
        assert forall|i: int| 0 <= i < t.len() implies shaped(#[trigger] t[i], pre) by {
            assert(t[i] == ns[i]);
        }
        lemma_merged_all_shaped(s, t, pre);
        lemma_merged_shaped(merged_all(s, t), ns[ns.len() - 1], pre);
    }
}

proof fn lemma_inserted_all_shaped(es: Seq<SEntry>)
    ensures
        all_shaped(inserted_all(es), Seq::empty()),
    decreases es.len(),
{
    if es.len() > 0 {
        let s = inserted_all(es.drop_last());
        lemma_inserted_all_shaped(es.drop_last());
        let e = es.last();
        let cs = crate::text::path_key(e.path);
        let f = SNode::File(entry_file(e));
        assert(f->0.name == cs.last());
        if cs.len() > 0 {
            assert(cs.drop_last().push(cs.last()) =~= cs);
        }
        if cs.len() == 1 {
            assert(Seq::<Seq<char>>::empty().push(cs.last()) =~= cs);
            let r = s.push(f);
            assert forall|i: int| 0 <= i < r.len() implies shaped(#[trigger] r[i], Seq::empty()) by {
                if i < s.len() {
                    assert(r[i] == s[i]);
                }
            }
            assert forall|i: int, j: int|
                0 <= i < r.len() && 0 <= j < r.len() && i != j && r[i] is Folder && r[j] is Folder
                    implies #[trigger] r[i].name() != #[trigger] r[j].name() by {
                assert(r[i] == s[i] && r[j] == s[j]);
            }
        } else if cs.len() > 1 {
            lemma_path_key_good(e.path);
            let fc = cs.drop_last();
            assert forall|i: int| 1 <= i < fc.len() implies plain_part(#[trigger] fc[i]) by {
                assert(fc[i] == cs[i]);
            }
            lemma_wrapped_shaped(f, cs.drop_last(), 0);
            assert(cs.drop_last().take(0) =~= Seq::<Seq<char>>::empty());
            lemma_merged_shaped(s, wrapped(f, cs.drop_last(), 0), Seq::empty());
        }
    } else {
        assert(inserted_all(es) =~= Seq::<SNode>::empty());
    }
}

proof fn lemma_sorted_level_shaped(t: Seq<SNode>, pre: Seq<Seq<char>>)
    requires
        all_shaped(t, pre),
    ensures
        all_shaped(sorted_level(t), pre),
        sorted_level(t).len() == t.len(),
        forall|i: int|
            0 <= i < sorted_level(t).len() ==> exists|j: int|
                0 <= j < t.len() && #[trigger] sorted_level(t)[i] == t[j],
    decreases t.len(),
{
    if t.len() == 0 {
        assert(sorted_level(t) =~= t);
    } else {
        let d = t.drop_last();
        assert forall|i: int| 0 <= i < d.len() implies shaped(#[trigger] d[i], pre) by {
            assert(d[i] == t[i]);
        }
        assert forall|i: int, j: int|
            0 <= i < d.len() && 0 <= j < d.len() && i != j && d[i] is Folder && d[j] is Folder
                implies #[trigger] d[i].name() != #[trigger] d[j].name() by {
            assert(d[i] == t[i] && d[j] == t[j]);
        }
        lemma_sorted_level_shaped(d, pre);
        let u = sorted_level(d);
        let x = t.last();
        let p = insert_pos_from(u, x, 0);
        lemma_insert_pos_bound(u, x, 0);
        let r = u.insert(p, x);
        assert(r == sorted_level(t));
        // Each node of `r` is a node of `t`, found at an index below the
        // last one when it comes from `u`.
        assert forall|i: int| 0 <= i < r.len() && i != p implies exists|j: int|
            0 <= j < d.len() && #[trigger] r[i] == d[j] by {
            let m = if i < p { i } else { i - 1 };
            assert(r[i] == u[m]);
        }
        assert forall|i: int| 0 <= i < r.len() implies exists|j: int|
            0 <= j < t.len() && #[trigger] r[i] == t[j] by {
            if i == p {
                assert(r[i] == t[t.len() - 1]);
            } else {
                let j = choose|j: int| 0 <= j < d.len() && r[i] == d[j];
                assert(t[j] == d[j]);
            }
        }
        assert forall|i: int| 0 <= i < r.len() implies shaped(#[trigger] r[i], pre) by {
            let j = choose|j: int| 0 <= j < t.len() && r[i] == t[j];
        }
        assert forall|i: int, j: int|
            0 <= i < r.len() && 0 <= j < r.len() && i != j && r[i] is Folder && r[j] is Folder
                implies #[trigger] r[i].name() != #[trigger] r[j].name() by {
            if i != p && j != p {
                let mi = if i < p { i } else { i - 1 };
                let mj = if j < p { j } else { j - 1 };
                assert(r[i] == u[mi] && r[j] == u[mj]);
            } else {
                let o = if i == p { j } else { i };
                let k = choose|k: int| 0 <= k < d.len() && r[o] == d[k];
                assert(d[k] == t[k]);
                assert(r[p] == t[t.len() - 1]);
            }
        }
    }
}

proof fn lemma_sorted_node_shaped(n: SNode, pre: Seq<Seq<char>>)
    requires
        shaped(n, pre),
    ensures
        shaped(sorted_node(n), pre),
        sorted_node(n) is Folder == n is Folder,
        sorted_node(n).name() == n.name(),
    decreases n, 2nat,
{
    broadcast use vstd::seq_lib::to_multiset_len;
    match n {
        SNode::File(_) => {},
        SNode::Folder { name, children, .. } => {
            assert(all_shaped(children, pre.push(name)));
            lemma_sorted_forest_shaped(children, pre.push(name));
            crate::build_laws::lemma_fmset_sorted_forest(children);
            assert(fmset(sorted_forest(children)).len() == fmset(children).len());
        },
    }
}

proof fn lemma_sorted_forest_shaped(s: Seq<SNode>, pre: Seq<Seq<char>>)
    requires
        all_shaped(s, pre),
    ensures
        all_shaped(sorted_forest(s), pre),
    decreases s, 1nat,
{
    lemma_sorted_nodes_shaped(s, pre);
    lemma_sorted_level_shaped(sorted_nodes(s), pre);
}

proof fn lemma_sorted_nodes_shaped(s: Seq<SNode>, pre: Seq<Seq<char>>)
    requires
        all_shaped(s, pre),
    ensures
        all_shaped(sorted_nodes(s), pre),
    decreases s, 0nat,
{
    let r = sorted_nodes(s);
    assert forall|i: int| 0 <= i < r.len() implies shaped(#[trigger] r[i], pre)
        && (r[i] is Folder == s[i] is Folder) && r[i].name() == s[i].name() by {
        lemma_sorted_node_shaped(s[i], pre);
    }
    assert forall|i: int, j: int|
        0 <= i < r.len() && 0 <= j < r.len() && i != j && r[i] is Folder && r[j] is Folder
            implies #[trigger] r[i].name() != #[trigger] r[j].name() by {
        assert(r[i].name() == s[i].name() && r[j].name() == s[j].name());
        assert(s[i] is Folder && s[j] is Folder);
    }
}

/// In the tree built from diff entries, every folder below the root has the
/// path of its components (its parent's path joined with its name; for a
/// child of the root, its name), holds at least one file, and no two
/// folders among the children of one folder share a name.
pub proof fn law_build_shaped(es: Seq<SEntry>)
    ensures
        all_shaped(sorted_forest(inserted_all(es)), Seq::empty()),
{
    lemma_inserted_all_shaped(es);
    lemma_sorted_forest_shaped(inserted_all(es), Seq::empty());
}

// ------------------------------------------------------------------------
// No two folders with the same path
// ------------------------------------------------------------------------

/// The components of the paths of a flag list.
pub open spec fn flag_keys(fl: Seq<(Seq<char>, bool)>) -> Seq<Seq<Seq<char>>> {
    fl.map_values(|x: (Seq<char>, bool)| path_key(x.0))
}

proof fn lemma_flag_keys_add(a: Seq<(Seq<char>, bool)>, b: Seq<(Seq<char>, bool)>)
    ensures
        flag_keys(a + b) == flag_keys(a) + flag_keys(b),
{
    assert(flag_keys(a + b) =~= flag_keys(a) + flag_keys(b));
}

proof fn lemma_shaped_flags(n: SNode, pre: Seq<Seq<char>>)
    requires
        shaped(n, pre),
    ensures
        forall|i: int|
            0 <= i < flag_keys(folder_flags(n)).len() ==> pre.push(n.name()).is_prefix_of(
                #[trigger] flag_keys(folder_flags(n))[i],
            ),
        forall|i: int, j: int|
            0 <= i < flag_keys(folder_flags(n)).len() && 0 <= j < flag_keys(folder_flags(n)).len()
                && i != j ==> #[trigger] flag_keys(folder_flags(n))[i] != #[trigger] flag_keys(
                folder_flags(n),
            )[j],
    decreases n, 1nat,
{
    match n {
        SNode::File(_) => {},
        SNode::Folder { name, path, children, expanded } => {
            let q = pre.push(name);
            lemma_shaped_flags_of(children, q);
            lemma_key_of_join(q);
            let head = seq![(path, expanded)];
            lemma_flag_keys_add(head, folder_flags_of(children));
            let ks = flag_keys(folder_flags(n));
            let kc = flag_keys(folder_flags_of(children));
            assert(ks == flag_keys(head) + kc);
            assert(ks[0] == q);
            assert forall|i: int| 0 <= i < ks.len() implies q.is_prefix_of(#[trigger] ks[i]) by {
                if i > 0 {
                    assert(ks[i] == kc[i - 1]);
                    let m = choose|m: int|
                        0 <= m < children.len() && children[m] is Folder && q.push(
                            children[m].name(),
                        ).is_prefix_of(kc[i - 1]);
                    assert forall|k: int| 0 <= k < q.len() implies q[k] == ks[i][k] by {
                        assert(q.push(children[m].name())[k] == q[k]);
                    }
                }
            }
            assert forall|i: int, j: int| 0 <= i < ks.len() && 0 <= j < ks.len() && i != j
                implies #[trigger] ks[i] != #[trigger] ks[j] by {
                if i > 0 && j > 0 {
                    assert(ks[i] == kc[i - 1] && ks[j] == kc[j - 1]);
                } else {
                    let o = if i == 0 { j } else { i };
                    assert(ks[o] == kc[o - 1]);
                    let m = choose|m: int|
                        0 <= m < children.len() && children[m] is Folder && q.push(
                            children[m].name(),
                        ).is_prefix_of(kc[o - 1]);
                    assert(ks[o].len() > q.len());
                }
            }
        },
    }
}

proof fn lemma_shaped_flags_of(s: Seq<SNode>, pre: Seq<Seq<char>>)
    requires
        all_shaped(s, pre),
    ensures
        forall|i: int|
            0 <= i < flag_keys(folder_flags_of(s)).len() ==> exists|m: int|
                0 <= m < s.len() && s[m] is Folder && pre.push(s[m].name()).is_prefix_of(
                    #[trigger] flag_keys(folder_flags_of(s))[i],
                ),
        forall|i: int, j: int|
            0 <= i < flag_keys(folder_flags_of(s)).len() && 0 <= j < flag_keys(
                folder_flags_of(s),
            ).len() && i != j ==> #[trigger] flag_keys(folder_flags_of(s))[i]
                != #[trigger] flag_keys(folder_flags_of(s))[j],
    decreases s, 0nat,
{
    if s.len() == 0 {
        assert(flag_keys(folder_flags_of(s)).len() == 0);
    } else {
        let t = s.subrange(0, s.len() - 1);
        let l = s[s.len() - 1];
        assert forall|i: int| 0 <= i < t.len() implies shaped(#[trigger] t[i], pre) by {
            assert(t[i] == s[i]);
        }
        assert forall|i: int, j: int|
            0 <= i < t.len() && 0 <= j < t.len() && i != j && t[i] is Folder && t[j] is Folder
                implies #[trigger] t[i].name() != #[trigger] t[j].name() by {
            assert(t[i] == s[i] && t[j] == s[j]);
        }
        lemma_shaped_flags_of(t, pre);
        lemma_shaped_flags(l, pre);
        lemma_flag_keys_add(folder_flags_of(t), folder_flags(l));
        let ks = flag_keys(folder_flags_of(s));
        let kt = flag_keys(folder_flags_of(t));
        let kl = flag_keys(folder_flags(l));
        assert(ks == kt + kl);
        assert(kl.len() > 0 ==> l is Folder);
        assert forall|i: int| 0 <= i < ks.len() implies exists|m: int|
            0 <= m < s.len() && s[m] is Folder && pre.push(s[m].name()).is_prefix_of(#[trigger] ks[i]) by {
            if i < kt.len() {
                assert(ks[i] == kt[i]);
                let m = choose|m: int|
                    0 <= m < t.len() && t[m] is Folder && pre.push(t[m].name()).is_prefix_of(kt[i]);
                assert(s[m] == t[m]);
            } else {
                assert(ks[i] == kl[i - kt.len()]);
                assert(pre.push(s[s.len() - 1].name()).is_prefix_of(ks[i]));
            }
        }
        assert forall|i: int, j: int| 0 <= i < ks.len() && 0 <= j < ks.len() && i != j
            implies #[trigger] ks[i] != #[trigger] ks[j] by {
            if i < kt.len() && j < kt.len() {
                assert(ks[i] == kt[i] && ks[j] == kt[j]);
            } else if i >= kt.len() && j >= kt.len() {
                assert(ks[i] == kl[i - kt.len()] && ks[j] == kl[j - kt.len()]);
            } else {
                let a = if i < kt.len() { i } else { j };
                let b = if i < kt.len() { j } else { i };
                assert(ks[a] == kt[a]);
                assert(ks[b] == kl[b - kt.len()]);
                let m = choose|m: int|
                    0 <= m < t.len() && t[m] is Folder && pre.push(t[m].name()).is_prefix_of(kt[a]);
                assert(s[m] == t[m]);
                let ln = s.len() - 1;
                assert(s[m].name() != s[ln].name());
                assert(pre.push(s[ln].name()).is_prefix_of(ks[b]));
                assert(ks[a][pre.len() as int] == s[m].name());
                assert(ks[b][pre.len() as int] == s[ln].name());
            }
        }
    }
}

proof fn lemma_root_names(es: Seq<SEntry>)
    ensures
        forall|i: int|
            0 <= i < inserted_all(es).len() && (#[trigger] inserted_all(es)[i]) is Folder
                ==> exists|k: int|
                0 <= k < es.len() && path_key((#[trigger] es[k]).path).len() > 1
                    && inserted_all(es)[i].name() == path_key(es[k].path)[0],
    decreases es.len(),
{
    if es.len() > 0 {
        let d = es.drop_last();
        let s = inserted_all(d);
        lemma_root_names(d);
        let e = es.last();
        let cs = path_key(e.path);
        let f = SNode::File(entry_file(e));
        let r = inserted_all(es);
        assert forall|i: int| 0 <= i < s.len() && s[i] is Folder implies exists|k: int|
            0 <= k < es.len() && path_key((#[trigger] es[k]).path).len() > 1 && s[i].name()
                == path_key(es[k].path)[0] by {
            let k = choose|k: int|
                0 <= k < d.len() && path_key((#[trigger] d[k]).path).len() > 1 && s[i].name()
                    == path_key(d[k].path)[0];
            assert(es[k] == d[k]);
        }
        if cs.len() > 1 {
            let w = wrapped(f, cs.drop_last(), 0);
            let nm = cs[0];
            assert(w.name() == nm);
            let k0 = first_folder_from(s, nm, 0);
            lemma_first_folder_from(s, nm, 0);
            assert(es[es.len() - 1] == e);
            assert forall|i: int| 0 <= i < r.len() && r[i] is Folder implies exists|k: int|
                0 <= k < es.len() && path_key((#[trigger] es[k]).path).len() > 1 && r[i].name()
                    == path_key(es[k].path)[0] by {
                if k0 < 0 {
                    if i < s.len() {
                        assert(r[i] == s[i]);
                    } else {
                        assert(r[i] == w);
                    }
                } else {
                    if i != k0 {
                        assert(r[i] == s[i]);
                    } else {
                        assert(r[i].name() == s[k0].name());
                    }
                }
            }
        } else {
            assert forall|i: int| 0 <= i < r.len() && r[i] is Folder implies exists|k: int|
                0 <= k < es.len() && path_key((#[trigger] es[k]).path).len() > 1 && r[i].name()
                    == path_key(es[k].path)[0] by {
                if cs.len() == 1 {
                    assert(r == s.push(f));
                    if i < s.len() {
                        assert(r[i] == s[i]);
                    }
                }
            }
        }
    }
}

/// When no entry starts at the root `/`, no two folders of the tree built
/// from the entries have the same path, so restoring its collapsed folders
/// after a rebuild (`law_collapse_roundtrip`) applies to it.
pub proof fn law_build_folder_paths_distinct(es: Seq<SEntry>)
    requires
        forall|k: int| 0 <= k < es.len() ==> !is_rooted(#[trigger] es[k].path),
    ensures
        distinct_paths(flag_paths(folder_flags(crate::build_laws::built(es)))),
{
    let s = inserted_all(es);
    let c = sorted_forest(s);
    let root = crate::build_laws::built(es);
    lemma_inserted_all_shaped(es);
    lemma_sorted_nodes_shaped(s, Seq::empty());
    lemma_sorted_level_shaped(sorted_nodes(s), Seq::empty());
    law_build_shaped(es);
    lemma_shaped_flags_of(c, Seq::empty());
    lemma_root_names(es);
    let head = seq![(seq!['/'], true)];
    assert(crate::tree_model::root_path() == seq!['/']);
    lemma_flag_keys_add(head, folder_flags_of(c));
    let fl = folder_flags(root);
    let ks = flag_keys(fl);
    let kc = flag_keys(folder_flags_of(c));
    assert(fl == head + folder_flags_of(c));
    assert(ks == flag_keys(head) + kc);
    lemma_key_of_join(seq![seq!['/']]);
    assert(join_key(seq![seq!['/']]) =~= seq!['/']);
    assert(ks[0] == seq![seq!['/']]);
    let fp = flag_paths(fl);
    assert forall|i: int, j: int| 0 <= i < fp.len() && 0 <= j < fp.len() && i != j implies !same_path(
        #[trigger] fp[i],
        #[trigger] fp[j],
    ) by {
        assert(path_key(fp[i]) == ks[i] && path_key(fp[j]) == ks[j]);
        if i > 0 && j > 0 {
            assert(ks[i] == kc[i - 1] && ks[j] == kc[j - 1]);
        } else {
            let o = if i == 0 { j } else { i };
            assert(ks[o] == kc[o - 1]);
            let m = choose|m: int|
                0 <= m < c.len() && c[m] is Folder && Seq::<Seq<char>>::empty().push(c[m].name()).is_prefix_of(kc[o - 1]);
            assert(ks[o][0] == c[m].name());
            let jj = choose|jj: int| 0 <= jj < sorted_nodes(s).len() && #[trigger] sorted_level(sorted_nodes(s))[m] == sorted_nodes(s)[jj];
            assert(sorted_nodes(s)[jj] == sorted_node(s[jj]));
            lemma_sorted_node_shaped(s[jj], Seq::empty());
            assert(s[jj] is Folder);
            let k = choose|k: int|
                0 <= k < es.len() && path_key((#[trigger] es[k]).path).len() > 1 && s[jj].name()
                    == path_key(es[k].path)[0];
            lemma_path_key_good(es[k].path);
            assert(ks[o][0] != seq!['/']);
            assert(ks[0][0] == seq!['/']);
        }
    }
}

/// Rebuilding after an ignore change keeps exactly the folders the user
/// collapsed, when the new tree has the same folders (no entry starting at
/// the root).
pub proof fn law_rebuild_keeps_collapsed(t1: SNode, es: Seq<SEntry>)
    requires
        forall|k: int| 0 <= k < es.len() ==> !is_rooted(#[trigger] es[k].path),
        flag_paths(folder_flags(t1)) == flag_paths(folder_flags(crate::build_laws::built(es))),
    ensures
        collapsed(with_collapsed(crate::build_laws::built(es), collapsed(t1))) == collapsed(t1),
{
    let t2 = crate::build_laws::built(es);
    law_build_folder_paths_distinct(es);
    crate::build_laws::law_build_sorted_expanded(es, crate::tree_model::root_path(), crate::tree_model::root_path());
    crate::tree_laws::law_collapse_roundtrip(t1, t2);
}

} // verus!
