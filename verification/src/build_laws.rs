//! Properties of the tree built from diff entries.

use vstd::prelude::*;
use vstd::multiset::Multiset;
use vstd::seq_lib::lemma_multiset_commutative;

use crate::diff::FileState;
use crate::text::{lemma_text_lt_asym, lemma_text_lt_trans, path_key, text_lt};
use crate::tree_laws::{
    lemma_files_toggled, lemma_files_with_checked, lemma_rechecked_keeps_no_deleted_checked,
    copyable_path, law_expansion_keeps_files, law_synced_files_are_copyable,
    law_toggle_at_keeps_deleted_unchecked, lemma_files_of_single, no_deleted_checked,
};
use crate::tree_model::{
    entry_file, files, files_of, first_folder_from, has_name, inserted, inserted_all,
    lemma_files_of_push, lemma_files_of_split, lemma_files_of_take, lemma_first_folder_from,
    merged, merged_all, sorted_forest, sorted_level, sorted_node, sorted_nodes, wrapped, SEntry,
    SFile, SNode, insert_pos_from, lemma_insert_pos_bound, node_lt, collapsed, collapsed_of,
    checked_paths, expand_toggled_at, file_paths, file_with_checked, root_path, toggled,
    toggled_at, with_checked, with_collapsed,
};

verus! {

/// The files of a list of nodes, as a multiset.
pub open spec fn fmset(s: Seq<SNode>) -> Multiset<SFile> {
    files_of(s).to_multiset()
}

/// The files the entries stand for, as a multiset.
pub open spec fn entry_files(es: Seq<SEntry>) -> Multiset<SFile> {
    es.map_values(|e: SEntry| entry_file(e)).to_multiset()
}

// ------------------------------------------------------------------------
// Multisets of files
// ------------------------------------------------------------------------

proof fn lemma_empty_mset<A>(s: Seq<A>)
    requires
        s.len() == 0,
    ensures
        s.to_multiset() == Multiset::<A>::empty(),
{
    s.to_multiset_ensures();
    assert(s.to_multiset() =~= Multiset::<A>::empty()) by {
        assert forall|a: A| s.to_multiset().count(a) == 0 by {
            assert(!s.contains(a));
        }
    }
}

proof fn lemma_fmset_push(s: Seq<SNode>, x: SNode)
    ensures
        fmset(s.push(x)) == fmset(s).add(files(x).to_multiset()),
{
    lemma_files_of_push(s, x);
    lemma_multiset_commutative(files_of(s), files(x));
}

pub proof fn lemma_fmset_split3(s: Seq<SNode>, i: int)
    requires
        0 <= i < s.len(),
    ensures
        fmset(s) == fmset(s.take(i)).add(files(s[i]).to_multiset()).add(fmset(s.skip(i + 1))),
{
    lemma_files_of_split(s, i + 1);
    lemma_files_of_take(s, i);
    lemma_multiset_commutative(files_of(s.take(i + 1)), files_of(s.skip(i + 1)));
    lemma_multiset_commutative(files_of(s.take(i)), files(s[i]));
}

proof fn lemma_fmset_update(s: Seq<SNode>, i: int, x: SNode, d: Multiset<SFile>)
    requires
        0 <= i < s.len(),
        files(x).to_multiset() == files(s[i]).to_multiset().add(d),
    ensures
        fmset(s.update(i, x)) == fmset(s).add(d),
{
    let u = s.update(i, x);
    lemma_fmset_split3(s, i);
    lemma_fmset_split3(u, i);
    assert(u.take(i) =~= s.take(i));
    assert(u.skip(i + 1) =~= s.skip(i + 1));
    assert(fmset(u) =~= fmset(s).add(d));
}

proof fn lemma_fmset_insert(t: Seq<SNode>, p: int, x: SNode)
    requires
        0 <= p <= t.len(),
    ensures
        fmset(t.insert(p, x)) == fmset(t).add(files(x).to_multiset()),
{
    let u = t.insert(p, x);
    lemma_fmset_split3(u, p);
    assert(u.take(p) =~= t.take(p));
    assert(u.skip(p + 1) =~= t.skip(p));
    lemma_files_of_split(t, p);
    lemma_multiset_commutative(files_of(t.take(p)), files_of(t.skip(p)));
    assert(fmset(u) =~= fmset(t).add(files(x).to_multiset()));
}

proof fn lemma_fmset_sorted_level(s: Seq<SNode>)
    ensures
        fmset(sorted_level(s)) == fmset(s),
        sorted_level(s).to_multiset() == s.to_multiset(),
    decreases s.len(),
{
    if s.len() > 0 {
        let t = sorted_level(s.drop_last());
        lemma_fmset_sorted_level(s.drop_last());
        lemma_insert_pos_bound(t, s.last(), 0);
        let p = insert_pos_from(t, s.last(), 0);
        lemma_fmset_insert(t, p, s.last());
        assert(s.drop_last().push(s.last()) =~= s);
        lemma_fmset_push(s.drop_last(), s.last());
        t.insert_ensures(p, s.last());
        assert(t.insert(p, s.last()) =~= t.take(p) + seq![s.last()] + t.skip(p));
        lemma_multiset_commutative(t.take(p) + seq![s.last()], t.skip(p));
        lemma_multiset_commutative(t.take(p), seq![s.last()]);
        lemma_multiset_commutative(t.take(p), t.skip(p));
        assert(t =~= t.take(p) + t.skip(p));
        assert(seq![s.last()] =~= Seq::<SNode>::empty().push(s.last()));
        s.drop_last().to_multiset_ensures();
        Seq::<SNode>::empty().to_multiset_ensures();
        assert(sorted_level(s).to_multiset() =~= s.to_multiset());
    } else {
        assert(s =~= Seq::<SNode>::empty());
    }
}

/// Sorting a tree keeps its files.
pub proof fn lemma_fmset_sorted_node(n: SNode)
    ensures
        files(sorted_node(n)).to_multiset() == files(n).to_multiset(),
    decreases n, 2nat,
{
    match n {
        SNode::File(_) => {},
        SNode::Folder { children, .. } => {
            lemma_fmset_sorted_forest(children);
        },
    }
}

/// Sorting a list of trees keeps their files.
pub proof fn lemma_fmset_sorted_forest(s: Seq<SNode>)
    ensures
        fmset(sorted_forest(s)) == fmset(s),
    decreases s, 1nat,
{
    lemma_fmset_sorted_nodes(s);
    lemma_fmset_sorted_level(sorted_nodes(s));
}

proof fn lemma_fmset_sorted_nodes(s: Seq<SNode>)
    ensures
        fmset(sorted_nodes(s)) == fmset(s),
    decreases s, 0nat,
{
    if s.len() > 0 {
        let t = s.subrange(0, s.len() - 1);
        lemma_fmset_sorted_nodes(t);
        lemma_fmset_sorted_node(s[s.len() - 1]);
        assert(sorted_nodes(s) =~= sorted_nodes(t).push(sorted_node(s[s.len() - 1])));
        assert(s =~= t.push(s[s.len() - 1]));
        lemma_fmset_push(sorted_nodes(t), sorted_node(s[s.len() - 1]));
        lemma_fmset_push(t, s[s.len() - 1]);
    }
}

proof fn lemma_files_wrapped(node: SNode, fc: Seq<Seq<char>>, k: int)
    ensures
        files(wrapped(node, fc, k)) == files(node),
    decreases fc.len() - k,
{
    if 0 <= k < fc.len() {
        lemma_files_wrapped(node, fc, k + 1);
        lemma_files_of_single(wrapped(node, fc, k + 1));
    }
}

// ------------------------------------------------------------------------
// Soundness: every file comes from an entry
// ------------------------------------------------------------------------

proof fn lemma_merged_sub(s: Seq<SNode>, n: SNode)
    ensures
        fmset(merged(s, n)).subset_of(fmset(s).add(files(n).to_multiset())),
    decreases n, 0nat,
{
    match n {
        SNode::File(_) => {
            lemma_fmset_push(s, n);
        },
        SNode::Folder { name, children, .. } => {
            let k = first_folder_from(s, name, 0);
            lemma_first_folder_from(s, name, 0);
            if k < 0 {
                lemma_fmset_push(s, n);
            } else {
                let t = s[k].children();
                lemma_merged_all_sub(t, children);
                let x = SNode::Folder {
                    name: s[k].name(),
                    path: s[k].path(),
                    children: merged_all(t, children),
                    expanded: s[k] matches SNode::Folder { expanded, .. } && expanded,
                };
                let u = s.update(k, x);
                lemma_fmset_split3(s, k);
                lemma_fmset_split3(u, k);
                assert(u.take(k) =~= s.take(k));
                assert(u.skip(k + 1) =~= s.skip(k + 1));
                assert(files(s[k]) == files_of(t));
            }
        },
    }
}

proof fn lemma_merged_all_sub(s: Seq<SNode>, ns: Seq<SNode>)
    ensures
        fmset(merged_all(s, ns)).subset_of(fmset(s).add(fmset(ns))),
    decreases ns, 1nat,
{
    if ns.len() > 0 {
        let t = ns.subrange(0, ns.len() - 1);
        lemma_merged_all_sub(s, t);
        lemma_merged_sub(merged_all(s, t), ns[ns.len() - 1]);
        assert(ns =~= t.push(ns[ns.len() - 1]));
        lemma_fmset_push(t, ns[ns.len() - 1]);
    } else {
        lemma_empty_mset(files_of(ns));
    }
}

proof fn lemma_inserted_sub(s: Seq<SNode>, e: SEntry)
    ensures
        fmset(inserted(s, e)).subset_of(fmset(s).insert(entry_file(e))),
{
    let cs = path_key(e.path);
    let f = SNode::File(entry_file(e));
    assert(files(f) == seq![entry_file(e)]);
    assert(seq![entry_file(e)].to_multiset() =~= Multiset::empty().insert(entry_file(e))) by {
        Seq::<SFile>::empty().to_multiset_ensures();
        assert(Seq::<SFile>::empty().push(entry_file(e)) =~= seq![entry_file(e)]);
    }
    if cs.len() == 1 {
        lemma_fmset_push(s, f);
    } else if cs.len() > 1 {
        let w = wrapped(f, cs.drop_last(), 0);
        lemma_files_wrapped(f, cs.drop_last(), 0);
        lemma_merged_sub(s, w);
    }
}

proof fn lemma_inserted_all_sub(es: Seq<SEntry>)
    ensures
        fmset(inserted_all(es)).subset_of(entry_files(es)),
    decreases es.len(),
{
    if es.len() > 0 {
        let t = es.drop_last();
        lemma_inserted_all_sub(t);
        lemma_inserted_sub(inserted_all(t), es.last());
        assert(es.map_values(|e: SEntry| entry_file(e)) =~= t.map_values(|e: SEntry| entry_file(e)).push(entry_file(es.last())));
        t.map_values(|e: SEntry| entry_file(e)).to_multiset_ensures();
    } else {
        lemma_empty_mset(files_of(Seq::<SNode>::empty()));
        lemma_empty_mset(es.map_values(|e: SEntry| entry_file(e)));
    }
}

/// Every file of the tree built from some entries is the file of one of
/// them: it keeps the entry's full path, state, ignored flag and commit
/// line, and is checked exactly when the entry is modified and not ignored.
pub proof fn law_build_sound(es: Seq<SEntry>, f: SFile)
    requires
        files_of(sorted_forest(inserted_all(es))).contains(f),
    ensures
        exists|k: int| 0 <= k < es.len() && f == entry_file(#[trigger] es[k]),
{
    let s = inserted_all(es);
    lemma_fmset_sorted_forest(s);
    lemma_inserted_all_sub(es);
    files_of(sorted_forest(s)).to_multiset_ensures();
    let m = es.map_values(|e: SEntry| entry_file(e));
    m.to_multiset_ensures();
    assert(fmset(sorted_forest(s)).count(f) > 0);
    assert(entry_files(es).count(f) > 0);
    assert(m.contains(f));
    let k = choose|k: int| 0 <= k < m.len() && m[k] == f;
    assert(f == entry_file(es[k]));
}

/// In a tree built from entries, no deleted file is checked.
pub proof fn law_build_no_deleted_checked(es: Seq<SEntry>)
    ensures
        no_deleted_checked(files_of(sorted_forest(inserted_all(es)))),
{
    let fs = files_of(sorted_forest(inserted_all(es)));
    assert forall|i: int| 0 <= i < fs.len() && #[trigger] fs[i].state == FileState::Deleted implies !fs[i].checked by {
        assert(fs.contains(fs[i]));
        law_build_sound(es, fs[i]);
    }
}

// ------------------------------------------------------------------------
// Completeness: no entry is lost
// ------------------------------------------------------------------------

/// Whether some entry's components are exactly `full`.
pub open spec fn file_backed(es: Seq<SEntry>, full: Seq<Seq<char>>) -> bool {
    exists|k: int| 0 <= k < es.len() && path_key((#[trigger] es[k]).path) == full
}

/// Whether some entry's components strictly extend `pre`.
pub open spec fn folder_backed(es: Seq<SEntry>, pre: Seq<Seq<char>>) -> bool {
    exists|k: int|
        0 <= k < es.len() && path_key((#[trigger] es[k]).path).len() > pre.len()
            && pre.is_prefix_of(path_key(es[k].path))
}

/// Every node of a tree drawn at the components `pre` stands where an entry
/// put it: a file at the components of an entry, a folder on the way to one.
pub open spec fn backed(n: SNode, pre: Seq<Seq<char>>, es: Seq<SEntry>) -> bool
    decreases n,
{
    match n {
        SNode::File(f) => file_backed(es, pre.push(f.name)),
        SNode::Folder { name, children, .. } => folder_backed(es, pre.push(name)) && forall|i: int|
            0 <= i < children.len() ==> backed(#[trigger] children[i], pre.push(name), es),
    }
}

pub open spec fn all_backed(s: Seq<SNode>, pre: Seq<Seq<char>>, es: Seq<SEntry>) -> bool {
    forall|i: int| 0 <= i < s.len() ==> backed(#[trigger] s[i], pre, es)
}

/// No entry's components are a prefix of (or equal to) another's.
pub open spec fn prefix_free(es: Seq<SEntry>) -> bool {
    forall|i: int, j: int|
        0 <= i < es.len() && 0 <= j < es.len() && i != j ==> !path_key(
            (#[trigger] es[i]).path,
        ).is_prefix_of(path_key((#[trigger] es[j]).path))
}

/// `e` is not in a prefix relation with any of `es`.
pub open spec fn fresh(e: SEntry, es: Seq<SEntry>) -> bool {
    forall|k: int|
        0 <= k < es.len() ==> !path_key((#[trigger] es[k]).path).is_prefix_of(path_key(e.path))
            && !path_key(e.path).is_prefix_of(path_key(es[k].path))
}

proof fn lemma_backed_mono(n: SNode, pre: Seq<Seq<char>>, es: Seq<SEntry>, e: SEntry)
    requires
        backed(n, pre, es),
    ensures
        backed(n, pre, es.push(e)),
    decreases n,
{
    let es2 = es.push(e);
    match n {
        SNode::File(f) => {
            let k = choose|k: int| 0 <= k < es.len() && path_key((#[trigger] es[k]).path) == pre.push(f.name);
            assert(es2[k] == es[k]);
        },
        SNode::Folder { name, children, .. } => {
            let k = choose|k: int|
                0 <= k < es.len() && path_key((#[trigger] es[k]).path).len() > pre.push(name).len()
                    && pre.push(name).is_prefix_of(path_key(es[k].path));
            assert(es2[k] == es[k]);
            assert forall|i: int| 0 <= i < children.len() implies backed(#[trigger] children[i], pre.push(name), es2) by {
                lemma_backed_mono(children[i], pre.push(name), es, e);
            }
        },
    }
}

proof fn lemma_all_backed_mono(s: Seq<SNode>, pre: Seq<Seq<char>>, es: Seq<SEntry>, e: SEntry)
    requires
        all_backed(s, pre, es),
    ensures
        all_backed(s, pre, es.push(e)),
{
    assert forall|i: int| 0 <= i < s.len() implies backed(#[trigger] s[i], pre, es.push(e)) by {
        lemma_backed_mono(s[i], pre, es, e);
    }
}

/// The chain made for the last entry of `es` is backed by it.
proof fn lemma_chain_backed(es: Seq<SEntry>, m: int)
    requires
        es.len() > 0,
        path_key(es.last().path).len() >= 2,
        0 <= m <= path_key(es.last().path).len() - 1,
    ensures
        ({
            let e = es.last();
            let cs = path_key(e.path);
            let fc = cs.drop_last();
            backed(wrapped(SNode::File(entry_file(e)), fc, m), fc.take(m), es)
        }),
    decreases path_key(es.last().path).len() - m,
{
    let e = es.last();
    let cs = path_key(e.path);
    let fc = cs.drop_last();
    let k = es.len() - 1;
    assert(es[k] == e);
    if m == fc.len() {
        assert(fc.take(m).push(cs.last()) =~= cs);
    } else {
        lemma_chain_backed(es, m + 1);
        assert(fc.take(m).push(fc[m]) =~= fc.take(m + 1));
        assert(fc.take(m + 1).is_prefix_of(cs)) by {
            assert(cs.subrange(0, m + 1) =~= fc.take(m + 1));
        }
        let w = wrapped(SNode::File(entry_file(e)), fc, m + 1);
        assert(seq![w][0] == w);
    }
}

/// Merging the chain of a fresh entry into a backed list of siblings adds
/// exactly its file.
proof fn lemma_merge_chain(s: Seq<SNode>, es: Seq<SEntry>, m: int)
    requires
        es.len() > 0,
        path_key(es.last().path).len() >= 2,
        0 <= m <= path_key(es.last().path).len() - 1,
        all_backed(s, path_key(es.last().path).drop_last().take(m), es.drop_last()),
        fresh(es.last(), es.drop_last()),
    ensures
        ({
            let e = es.last();
            let fc = path_key(e.path).drop_last();
            let r = merged(s, wrapped(SNode::File(entry_file(e)), fc, m));
            &&& fmset(r) == fmset(s).insert(entry_file(e))
            &&& all_backed(r, fc.take(m), es)
        }),
    decreases path_key(es.last().path).len() - m,
{
    let e = es.last();
    let prev = es.drop_last();
    let cs = path_key(e.path);
    let fc = cs.drop_last();
    let pre = fc.take(m);
    let f = entry_file(e);
    let fnode = SNode::File(f);
    let w = wrapped(fnode, fc, m);
    assert(prev.push(e) =~= es);
    lemma_all_backed_mono(s, pre, prev, e);
    lemma_files_wrapped(fnode, fc, m);
    assert(files(fnode).to_multiset() =~= Multiset::empty().insert(f)) by {
        Seq::<SFile>::empty().to_multiset_ensures();
        assert(Seq::<SFile>::empty().push(f) =~= seq![f]);
    }
    if m == fc.len() {
        // the file itself: no sibling can have its name
        assert(pre.push(cs.last()) =~= cs);
        if has_name(s, f.name) {
            let i = choose|i: int| 0 <= i < s.len() && #[trigger] s[i].name() == f.name;
            assert(backed(s[i], pre, prev));
            match s[i] {
                SNode::File(g) => {
                    let k = choose|k: int| 0 <= k < prev.len() && path_key((#[trigger] prev[k]).path) == pre.push(g.name);
                    assert(path_key(prev[k].path).is_prefix_of(cs));
                    assert(false);
                },
                SNode::Folder { name, .. } => {
                    let k = choose|k: int|
                        0 <= k < prev.len() && path_key((#[trigger] prev[k]).path).len() > pre.push(name).len()
                            && pre.push(name).is_prefix_of(path_key(prev[k].path));
                    assert(cs.is_prefix_of(path_key(prev[k].path)));
                    assert(false);
                },
            }
        }
        lemma_fmset_push(s, fnode);
        lemma_chain_backed(es, m);
        assert forall|i: int| 0 <= i < s.push(fnode).len() implies backed(#[trigger] s.push(fnode)[i], pre, es) by {
            if i == s.len() {
            } else {
                assert(s.push(fnode)[i] == s[i]);
            }
        }
    } else {
        let name = fc[m];
        let k = first_folder_from(s, name, 0);
        lemma_first_folder_from(s, name, 0);
        lemma_chain_backed(es, m);
        if k < 0 {
            lemma_fmset_push(s, w);
            assert forall|i: int| 0 <= i < s.push(w).len() implies backed(#[trigger] s.push(w)[i], pre, es) by {
                if i < s.len() {
                    assert(s.push(w)[i] == s[i]);
                }
            }
        } else {
            let t = s[k].children();
            let pre2 = fc.take(m + 1);
            assert(pre.push(name) =~= pre2);
            assert(backed(s[k], pre, es));
            assert(backed(s[k], pre, prev));
            assert(all_backed(t, pre2, prev));
            lemma_merge_chain(t, es, m + 1);
            let inner = wrapped(fnode, fc, m + 1);
            let wch = seq![inner];
            assert(wch.subrange(0, 0) =~= Seq::<SNode>::empty());
            assert(merged_all(t, wch.subrange(0, 0)) == t);
            assert(wch[0] == inner);
            assert(merged_all(t, wch) == merged(t, inner));
            let x = SNode::Folder {
                name: s[k].name(),
                path: s[k].path(),
                children: merged_all(t, wch),
                expanded: s[k] matches SNode::Folder { expanded, .. } && expanded,
            };
            assert(w->children == wch);
            assert(merged(s, w) == s.update(k, x));
            assert(files(s[k]) == files_of(t));
            assert(files(x) == files_of(merged(t, inner)));
            assert(fmset(t).insert(f) =~= fmset(t).add(Multiset::empty().insert(f)));
            lemma_fmset_update(s, k, x, Multiset::empty().insert(f));
            assert(fmset(s).insert(f) =~= fmset(s).add(Multiset::empty().insert(f)));
            let r = s.update(k, x);
            assert forall|i: int| 0 <= i < r.len() implies backed(#[trigger] r[i], pre, es) by {
                if i != k {
                    assert(r[i] == s[i]);
                } else {
                    assert(x.name() == name);
                }
            }
        }
    }
}

/// Inserting a fresh entry into backed root children adds exactly its file.
proof fn lemma_insert_fresh(s: Seq<SNode>, es: Seq<SEntry>)
    requires
        es.len() > 0,
        path_key(es.last().path).len() > 0,
        all_backed(s, Seq::empty(), es.drop_last()),
        fresh(es.last(), es.drop_last()),
    ensures
        fmset(inserted(s, es.last())) == fmset(s).insert(entry_file(es.last())),
        all_backed(inserted(s, es.last()), Seq::empty(), es),
{
    let e = es.last();
    let prev = es.drop_last();
    let cs = path_key(e.path);
    let f = entry_file(e);
    let fnode = SNode::File(f);
    assert(prev.push(e) =~= es);
    lemma_all_backed_mono(s, Seq::empty(), prev, e);
    if cs.len() == 1 {
        assert(files(fnode).to_multiset() =~= Multiset::empty().insert(f)) by {
            Seq::<SFile>::empty().to_multiset_ensures();
            assert(Seq::<SFile>::empty().push(f) =~= seq![f]);
        }
        lemma_fmset_push(s, fnode);
        assert(Seq::<Seq<char>>::empty().push(f.name) =~= cs);
        assert(es[es.len() - 1] == e);
        assert forall|i: int| 0 <= i < s.push(fnode).len() implies backed(#[trigger] s.push(fnode)[i], Seq::empty(), es) by {
            if i < s.len() {
                assert(s.push(fnode)[i] == s[i]);
            }
        }
    } else {
        assert(cs.drop_last().take(0) =~= Seq::<Seq<char>>::empty());
        lemma_merge_chain(s, es, 0);
    }
}

/// Whether every entry has a component and none lies on the way to another.
pub open spec fn valid_entries(es: Seq<SEntry>) -> bool {
    &&& forall|k: int| 0 <= k < es.len() ==> path_key((#[trigger] es[k]).path).len() > 0
    &&& prefix_free(es)
}

proof fn lemma_inserted_all_exact(es: Seq<SEntry>)
    requires
        valid_entries(es),
    ensures
        fmset(inserted_all(es)) == entry_files(es),
        all_backed(inserted_all(es), Seq::empty(), es),
    decreases es.len(),
{
    if es.len() == 0 {
        lemma_empty_mset(files_of(Seq::<SNode>::empty()));
        lemma_empty_mset(es.map_values(|e: SEntry| entry_file(e)));
    } else {
        let prev = es.drop_last();
        let e = es.last();
        assert(valid_entries(prev)) by {
            assert forall|k: int| 0 <= k < prev.len() implies path_key((#[trigger] prev[k]).path).len() > 0 by {
                assert(prev[k] == es[k]);
            }
            assert forall|i: int, j: int|
                0 <= i < prev.len() && 0 <= j < prev.len() && i != j implies !path_key(
                    (#[trigger] prev[i]).path,
                ).is_prefix_of(path_key((#[trigger] prev[j]).path)) by {
                assert(prev[i] == es[i] && prev[j] == es[j]);
            }
        }
        lemma_inserted_all_exact(prev);
        assert(fresh(e, prev)) by {
            assert forall|k: int| 0 <= k < prev.len() implies !path_key((#[trigger] prev[k]).path).is_prefix_of(path_key(e.path))
                && !path_key(e.path).is_prefix_of(path_key(prev[k].path)) by {
                assert(prev[k] == es[k]);
                assert(e == es[es.len() - 1]);
            }
        }
        assert(path_key(es[es.len() - 1].path).len() > 0);
        lemma_insert_fresh(inserted_all(prev), es);
        assert(es.map_values(|e: SEntry| entry_file(e)) =~= prev.map_values(|e: SEntry| entry_file(e)).push(entry_file(e)));
        prev.map_values(|e: SEntry| entry_file(e)).to_multiset_ensures();
    }
}

/// Every entry of a directory diff (each with a component, none on the way
/// to another, as the files of a directory tree are) appears in the built
/// tree exactly once, as its own file: the tree's files are, as a multiset,
/// the entries' files, so it holds as many files as there are entries.
pub proof fn law_build_complete(es: Seq<SEntry>)
    requires
        valid_entries(es),
    ensures
        files_of(sorted_forest(inserted_all(es))).to_multiset() == entry_files(es),
        files_of(sorted_forest(inserted_all(es))).len() == es.len(),
{
    lemma_inserted_all_exact(es);
    lemma_fmset_sorted_forest(inserted_all(es));
    files_of(sorted_forest(inserted_all(es))).to_multiset_ensures();
    es.map_values(|e: SEntry| entry_file(e)).to_multiset_ensures();
}

// ------------------------------------------------------------------------
// Order and expansion of the built tree
// ------------------------------------------------------------------------

/// No sibling sorts strictly before one listed ahead of it.
pub open spec fn level_sorted(s: Seq<SNode>) -> bool {
    forall|i: int, j: int| 0 <= i < j < s.len() ==> !node_lt(#[trigger] s[j], #[trigger] s[i])
}

/// Every folder of the tree lists its children in display order.
pub open spec fn tree_sorted(n: SNode) -> bool
    decreases n,
{
    match n {
        SNode::File(_) => true,
        SNode::Folder { children, .. } => level_sorted(children) && forall|i: int|
            0 <= i < children.len() ==> tree_sorted(#[trigger] children[i]),
    }
}

/// Every folder of the tree is expanded.
pub open spec fn all_expanded(n: SNode) -> bool
    decreases n,
{
    match n {
        SNode::File(_) => true,
        SNode::Folder { children, expanded, .. } => expanded && forall|i: int|
            0 <= i < children.len() ==> all_expanded(#[trigger] children[i]),
    }
}

proof fn lemma_node_lt_asym(a: SNode, b: SNode)
    ensures
        !(node_lt(a, b) && node_lt(b, a)),
{
    lemma_text_lt_asym(a.name(), b.name());
}

proof fn lemma_node_lt_trans(a: SNode, b: SNode, c: SNode)
    requires
        node_lt(a, b),
        node_lt(b, c),
    ensures
        node_lt(a, c),
{
    if a is Folder == b is Folder && b is Folder == c is Folder {
        lemma_text_lt_trans(a.name(), b.name(), c.name());
    }
}

proof fn lemma_insert_pos_from(t: Seq<SNode>, x: SNode, i: int)
    requires
        0 <= i <= t.len(),
    ensures
        forall|j: int| i <= j < insert_pos_from(t, x, i) ==> !node_lt(x, #[trigger] t[j]),
        insert_pos_from(t, x, i) < t.len() ==> node_lt(x, t[insert_pos_from(t, x, i)]),
        i <= insert_pos_from(t, x, i) <= t.len(),
    decreases t.len() - i,
{
    if i < t.len() && !node_lt(x, t[i]) {
        lemma_insert_pos_from(t, x, i + 1);
    }
}

proof fn lemma_sorted_level_sorted(s: Seq<SNode>)
    ensures
        level_sorted(sorted_level(s)),
    decreases s.len(),
{
    if s.len() > 0 {
        let t = sorted_level(s.drop_last());
        let x = s.last();
        lemma_sorted_level_sorted(s.drop_last());
        lemma_insert_pos_from(t, x, 0);
        let p = insert_pos_from(t, x, 0);
        let u = t.insert(p, x);
        assert forall|i: int, j: int| 0 <= i < j < u.len() implies !node_lt(#[trigger] u[j], #[trigger] u[i]) by {
            if j < p {
                assert(u[i] == t[i] && u[j] == t[j]);
            } else if j == p {
                assert(u[i] == t[i]);
            } else if i == p {
                assert(u[j] == t[j - 1]);
                assert(node_lt(x, t[p]));
                if node_lt(t[j - 1], x) {
                    if j - 1 == p {
                        lemma_node_lt_asym(x, t[p]);
                    } else {
                        lemma_node_lt_trans(t[j - 1], x, t[p]);
                        assert(!node_lt(t[j - 1], t[p]));
                    }
                }
            } else if i < p {
                assert(u[i] == t[i] && u[j] == t[j - 1]);
            } else {
                assert(u[i] == t[i - 1] && u[j] == t[j - 1]);
            }
        }
    }
}

/// Sorting a tree puts every folder's children in display order.
proof fn lemma_sorted_node_sorted(n: SNode)
    ensures
        tree_sorted(sorted_node(n)),
    decreases n, 2nat,
{
    match n {
        SNode::File(_) => {},
        SNode::Folder { children, .. } => {
            lemma_sorted_forest_sorted(children);
        },
    }
}

proof fn lemma_sorted_forest_sorted(s: Seq<SNode>)
    ensures
        level_sorted(sorted_forest(s)),
        forall|i: int| 0 <= i < sorted_forest(s).len() ==> tree_sorted(#[trigger] sorted_forest(s)[i]),
    decreases s, 1nat,
{
    let m = sorted_nodes(s);
    lemma_sorted_level_sorted(m);
    lemma_fmset_sorted_level(m);
    assert forall|i: int| 0 <= i < m.len() implies tree_sorted(#[trigger] m[i]) by {
        lemma_sorted_node_sorted(s[i]);
    }
    let r = sorted_level(m);
    assert forall|i: int| 0 <= i < r.len() implies tree_sorted(#[trigger] r[i]) by {
        r.to_multiset_ensures();
        m.to_multiset_ensures();
        assert(r.contains(r[i]));
        assert(r.to_multiset().count(r[i]) > 0);
        assert(m.to_multiset().count(r[i]) > 0);
        assert(m.contains(r[i]));
        let k = choose|k: int| 0 <= k < m.len() && m[k] == r[i];
    }
}

proof fn lemma_all_expanded_wrapped(node: SNode, fc: Seq<Seq<char>>, k: int)
    requires
        all_expanded(node),
    ensures
        all_expanded(wrapped(node, fc, k)),
    decreases fc.len() - k,
{
    if 0 <= k < fc.len() {
        lemma_all_expanded_wrapped(node, fc, k + 1);
        let w = wrapped(node, fc, k);
        assert(w->children[0] == wrapped(node, fc, k + 1));
    }
}

proof fn lemma_merged_expanded(s: Seq<SNode>, n: SNode)
    requires
        forall|i: int| 0 <= i < s.len() ==> all_expanded(#[trigger] s[i]),
        all_expanded(n),
    ensures
        forall|i: int| 0 <= i < merged(s, n).len() ==> all_expanded(#[trigger] merged(s, n)[i]),
    decreases n, 0nat,
{
    match n {
        SNode::File(_) => {
            assert forall|i: int| 0 <= i < merged(s, n).len() implies all_expanded(#[trigger] merged(s, n)[i]) by {
                if i < s.len() {
                    assert(merged(s, n)[i] == s[i]);
                }
            }
        },
        SNode::Folder { name, children, .. } => {
            let k = first_folder_from(s, name, 0);
            lemma_first_folder_from(s, name, 0);
            if k < 0 {
                assert forall|i: int| 0 <= i < merged(s, n).len() implies all_expanded(#[trigger] merged(s, n)[i]) by {
                    if i < s.len() {
                        assert(merged(s, n)[i] == s[i]);
                    }
                }
            } else {
                let t = s[k].children();
                assert(all_expanded(s[k]));
                lemma_merged_all_expanded(t, children);
                let r = merged(s, n);
                assert forall|i: int| 0 <= i < r.len() implies all_expanded(#[trigger] r[i]) by {
                    if i != k {
                        assert(r[i] == s[i]);
                    } else {
                        let mt = merged_all(t, children);
                        assert(r[i]->children == mt);
                    }
                }
            }
        },
    }
}

proof fn lemma_merged_all_expanded(s: Seq<SNode>, ns: Seq<SNode>)
    requires
        forall|i: int| 0 <= i < s.len() ==> all_expanded(#[trigger] s[i]),
        forall|i: int| 0 <= i < ns.len() ==> all_expanded(#[trigger] ns[i]),
    ensures
        forall|i: int| 0 <= i < merged_all(s, ns).len() ==> all_expanded(#[trigger] merged_all(s, ns)[i]),
    decreases ns, 1nat,
{
    if ns.len() > 0 {
        let t = ns.subrange(0, ns.len() - 1);
        assert forall|i: int| 0 <= i < t.len() implies all_expanded(#[trigger] t[i]) by {
            assert(t[i] == ns[i]);
        }
        lemma_merged_all_expanded(s, t);
        lemma_merged_expanded(merged_all(s, t), ns[ns.len() - 1]);
        assert(merged_all(s, ns) == merged(merged_all(s, t), ns[ns.len() - 1]));
    } else {
        assert(merged_all(s, ns) == s);
    }
}

proof fn lemma_inserted_all_expanded(es: Seq<SEntry>)
    ensures
        forall|i: int| 0 <= i < inserted_all(es).len() ==> all_expanded(#[trigger] inserted_all(es)[i]),
    decreases es.len(),
{
    if es.len() > 0 {
        let s = inserted_all(es.drop_last());
        let e = es.last();
        lemma_inserted_all_expanded(es.drop_last());
        let cs = path_key(e.path);
        let f = SNode::File(entry_file(e));
        if cs.len() == 1 {
            assert forall|i: int| 0 <= i < s.push(f).len() implies all_expanded(#[trigger] s.push(f)[i]) by {
                if i < s.len() {
                    assert(s.push(f)[i] == s[i]);
                }
            }
        } else if cs.len() > 1 {
            lemma_all_expanded_wrapped(f, cs.drop_last(), 0);
            lemma_merged_expanded(s, wrapped(f, cs.drop_last(), 0));
        }
    }
}

proof fn lemma_sorted_node_expanded(n: SNode)
    requires
        all_expanded(n),
    ensures
        all_expanded(sorted_node(n)),
    decreases n, 2nat,
{
    match n {
        SNode::File(_) => {
            assert(sorted_node(n) == n);
        },
        SNode::Folder { name, path, children, expanded } => {
            lemma_sorted_forest_expanded(children);
            let r = sorted_node(n);
            assert(r == SNode::Folder { name, path, children: sorted_forest(children), expanded });
            assert(expanded);
        },
    }
}

proof fn lemma_sorted_forest_expanded(s: Seq<SNode>)
    requires
        forall|i: int| 0 <= i < s.len() ==> all_expanded(#[trigger] s[i]),
    ensures
        forall|i: int| 0 <= i < sorted_forest(s).len() ==> all_expanded(#[trigger] sorted_forest(s)[i]),
    decreases s, 1nat,
{
    let m = sorted_nodes(s);
    assert forall|i: int| 0 <= i < m.len() implies all_expanded(#[trigger] m[i]) by {
        lemma_sorted_node_expanded(s[i]);
    }
    lemma_fmset_sorted_level(m);
    let r = sorted_level(m);
    assert forall|i: int| 0 <= i < r.len() implies all_expanded(#[trigger] r[i]) by {
        r.to_multiset_ensures();
        m.to_multiset_ensures();
        assert(r.contains(r[i]));
        assert(r.to_multiset().count(r[i]) > 0);
        assert(m.to_multiset().count(r[i]) > 0);
        assert(m.contains(r[i]));
        let k = choose|k: int| 0 <= k < m.len() && m[k] == r[i];
    }
}

proof fn lemma_expanded_not_collapsed(n: SNode)
    requires
        all_expanded(n),
    ensures
        collapsed(n).len() == 0,
    decreases n, 1nat,
{
    match n {
        SNode::File(_) => {},
        SNode::Folder { children, .. } => {
            lemma_expanded_not_collapsed_of(children);
        },
    }
}

proof fn lemma_expanded_not_collapsed_of(s: Seq<SNode>)
    requires
        forall|i: int| 0 <= i < s.len() ==> all_expanded(#[trigger] s[i]),
    ensures
        collapsed_of(s).len() == 0,
    decreases s, 0nat,
{
    if s.len() > 0 {
        let t = s.subrange(0, s.len() - 1);
        assert forall|i: int| 0 <= i < t.len() implies all_expanded(#[trigger] t[i]) by {
            assert(t[i] == s[i]);
        }
        lemma_expanded_not_collapsed_of(t);
        lemma_expanded_not_collapsed(s[s.len() - 1]);
    }
}

/// Sorting siblings only reorders them: the sorted list holds the same
/// nodes, as a multiset. (Inside each folder, `sorted_node` sorts the
/// children the same way and keeps the folder's name, path and flag.)
pub proof fn law_sorted_level_permutes(s: Seq<SNode>)
    ensures
        sorted_level(s).to_multiset() == s.to_multiset(),
        sorted_level(s).len() == s.len(),
    decreases s.len(),
{
    broadcast use vstd::seq_lib::to_multiset_insert, vstd::seq_lib::to_multiset_build, vstd::seq_lib::to_multiset_len;
    if s.len() > 0 {
        let t = sorted_level(s.drop_last());
        law_sorted_level_permutes(s.drop_last());
        lemma_insert_pos_bound(t, s.last(), 0);
        assert(s.drop_last().push(s.last()) =~= s);
        assert(t.insert(insert_pos_from(t, s.last(), 0), s.last()).to_multiset()
            == t.to_multiset().insert(s.last()));
        assert(s.drop_last().push(s.last()).to_multiset() == s.drop_last().to_multiset().insert(
            s.last(),
        ));
    } else {
        assert(sorted_level(s) =~= s);
    }
}

/// The tree built from entries lists every folder's children in display
/// order (folders first, then by name), and has every folder expanded, so
/// that nothing is collapsed.
pub proof fn law_build_sorted_expanded(es: Seq<SEntry>, name: Seq<char>, path: Seq<char>)
    ensures
        ({
            let root = SNode::Folder {
                name,
                path,
                children: sorted_forest(inserted_all(es)),
                expanded: true,
            };
            &&& tree_sorted(root)
            &&& all_expanded(root)
            &&& collapsed(root).len() == 0
        }),
{
    let s = inserted_all(es);
    lemma_sorted_forest_sorted(s);
    lemma_inserted_all_expanded(es);
    lemma_sorted_forest_expanded(s);
    let root = SNode::Folder { name, path, children: sorted_forest(s), expanded: true };
    lemma_expanded_not_collapsed(root);
}


/// Two distinct positions of a sequence that hold the same value: the value
/// is counted twice.
proof fn lemma_two_in_remove<A>(m: Seq<A>, k1: int, x: A)
    requires
        0 <= k1 < m.len(),
        m[k1] == x,
        m.to_multiset().count(x) >= 2,
    ensures
        exists|k2: int| 0 <= k2 < m.len() && k2 != k1 && m[k2] == x,
{
    broadcast use vstd::seq_lib::to_multiset_remove, vstd::seq_lib::to_multiset_contains;
    let r = m.remove(k1);
    assert(r.to_multiset() == m.to_multiset().remove(x));
    assert(r.to_multiset().count(x) > 0);
    assert(r.contains(x));
    let j = choose|j: int| 0 <= j < r.len() && r[j] == x;
    if j < k1 {
        assert(m[j] == x);
    } else {
        assert(m[j + 1] == x);
    }
}

/// In the tree built from the entries of a directory diff, no two files
/// share a path; so `file_paths_at` lists each path once there
/// (`law_paths_at_once`).
pub proof fn law_build_file_paths_distinct(es: Seq<SEntry>)
    requires
        valid_entries(es),
    ensures
        file_paths(files(built(es))).no_duplicates(),
{
    broadcast use vstd::seq_lib::to_multiset_remove, vstd::seq_lib::to_multiset_contains;
    law_build_complete(es);
    let fs = files(built(es));
    let m = es.map_values(|e: SEntry| entry_file(e));
    assert(fs.to_multiset() == m.to_multiset());
    let fp = file_paths(fs);
    assert forall|i: int, j: int| 0 <= i < fp.len() && 0 <= j < fp.len() && i != j implies fp[i]
        != fp[j] by {
        if fp[i] == fp[j] {
            assert(fs.contains(fs[i]) && fs.contains(fs[j]));
            assert(fs.to_multiset().count(fs[i]) > 0);
            assert(m.to_multiset().count(fs[i]) > 0);
            assert(m.contains(fs[i]));
            let k1 = choose|k1: int| 0 <= k1 < m.len() && m[k1] == fs[i];
            let k2 = if fs[i] == fs[j] {
                let r = fs.remove(i);
                assert(r.to_multiset() == fs.to_multiset().remove(fs[i]));
                let jj = if j < i { j } else { j - 1 };
                assert(r[jj] == fs[j]);
                assert(r.contains(fs[i]));
                assert(r.to_multiset().count(fs[i]) > 0);
                assert(m.to_multiset().count(fs[i]) >= 2);
                lemma_two_in_remove(m, k1, fs[i]);
                choose|k2: int| 0 <= k2 < m.len() && k2 != k1 && m[k2] == fs[i]
            } else {
                assert(fs.to_multiset().count(fs[j]) > 0);
                assert(m.to_multiset().count(fs[j]) > 0);
                assert(m.contains(fs[j]));
                choose|k2: int| 0 <= k2 < m.len() && m[k2] == fs[j]
            };
            assert(k1 != k2);
            assert(m[k1] == entry_file(es[k1]) && m[k2] == entry_file(es[k2]));
            assert(es[k1].path == es[k2].path);
            assert(path_key(es[k1].path).is_prefix_of(path_key(es[k2].path)));
        }
    }
}

/// Merging a branch into a list of siblings: a folder joins the first
/// sibling folder of its name, whose children then get its children merged
/// in, one after the other (`merged_all`), and the other siblings stay as
/// they are; with no such folder it is appended. A file is appended unless
/// a sibling already has its name, in which case nothing changes.
pub proof fn law_merge_cases(s: Seq<SNode>, n: SNode)
    ensures
        match n {
            SNode::File(_) => merged(s, n) == if has_name(s, n.name()) {
                s
            } else {
                s.push(n)
            },
            SNode::Folder { name, children, .. } => {
                &&& (exists|k: int| 0 <= k < s.len() && s[k] is Folder && #[trigger] s[k].name() == name)
                    ==> {
                    let k = first_folder_from(s, name, 0);
                    &&& 0 <= k < s.len() && s[k] is Folder && s[k].name() == name
                    &&& forall|j: int| 0 <= j < k ==> !(s[j] is Folder && #[trigger] s[j].name() == name)
                    &&& merged(s, n).len() == s.len()
                    &&& merged(s, n)[k] is Folder
                    &&& merged(s, n)[k].name() == name
                    &&& merged(s, n)[k].path() == s[k].path()
                    &&& merged(s, n)[k].children() == merged_all(s[k].children(), children)
                    &&& forall|j: int| 0 <= j < s.len() && j != k ==> #[trigger] merged(s, n)[j] == s[j]
                }
                &&& !(exists|k: int| 0 <= k < s.len() && s[k] is Folder && #[trigger] s[k].name() == name)
                    ==> merged(s, n) == s.push(n)
            },
        },
{
    if let SNode::Folder { name, .. } = n {
        lemma_first_folder_from(s, name, 0);
        let k = first_folder_from(s, name, 0);
        if exists|k: int| 0 <= k < s.len() && s[k] is Folder && #[trigger] s[k].name() == name {
            let w = choose|w: int| 0 <= w < s.len() && s[w] is Folder && #[trigger] s[w].name() == name;
            assert(k != -1);
        }
    }
}

/// Sorting the children of a folder: each child is sorted inside
/// (`sorted_node` keeps its name, path and flag and sorts its own children
/// the same way), and the sorted children are a reordering of them in which
/// every folder comes before every file and names do not decrease among the
/// folders and among the files; every folder below is sorted too.
pub proof fn law_sort_children(s: Seq<SNode>)
    ensures
        sorted_forest(s).to_multiset() == sorted_nodes(s).to_multiset(),
        sorted_forest(s).len() == s.len(),
        forall|i: int| 0 <= i < s.len() ==> #[trigger] sorted_nodes(s)[i] == sorted_node(s[i]),
        level_sorted(sorted_forest(s)),
        forall|i: int| 0 <= i < sorted_forest(s).len() ==> tree_sorted(#[trigger] sorted_forest(s)[i]),
        forall|i: int, j: int|
            0 <= i < j < sorted_forest(s).len() ==> !(#[trigger] sorted_forest(s)[i] is File
                && #[trigger] sorted_forest(s)[j] is Folder),
        forall|i: int, j: int|
            0 <= i < j < sorted_forest(s).len() && (sorted_forest(s)[i] is Folder
                == sorted_forest(s)[j] is Folder) ==> !text_lt(
                #[trigger] sorted_forest(s)[j].name(),
                #[trigger] sorted_forest(s)[i].name(),
            ),
{
    law_sorted_level_permutes(sorted_nodes(s));
    lemma_sorted_forest_sorted(s);
    let r = sorted_forest(s);
    assert forall|i: int, j: int| 0 <= i < j < r.len() implies !(#[trigger] r[i] is File
        && #[trigger] r[j] is Folder) by {
        assert(!node_lt(r[j], r[i]));
    }
    assert forall|i: int, j: int| 0 <= i < j < r.len() && (r[i] is Folder == r[j] is Folder)
        implies !text_lt(#[trigger] r[j].name(), #[trigger] r[i].name()) by {
        assert(!node_lt(r[j], r[i]));
    }
}

/// A built file stands for the entry: it has the entry's path (and as name
/// the last component of that path), state,
/// ignored flag and commit line, and it is checked exactly when the entry
/// is modified and not ignored.
pub open spec fn stands_for(f: SFile, e: SEntry) -> bool {
    &&& f.path == e.path
    &&& f.name == path_key(e.path).last()
    &&& f.state == e.state
    &&& f.ignored == e.ignored
    &&& f.commit_info == e.commit_info
    &&& f.checked == (e.state == FileState::Modified && !e.ignored)
}

/// Every file of the tree built from entries stands for one of them: it
/// keeps the entry's path, state, ignored flag and commit line, and it is
/// checked exactly when the entry is modified and not ignored. So an ignored
/// entry, or a new or deleted one, always gives an unchecked file, and a
/// modified entry that is not ignored gives a checked one.
pub proof fn law_built_files_stand_for_entries(es: Seq<SEntry>)
    ensures
        forall|i: int|
            0 <= i < files(built(es)).len() ==> exists|k: int|
                0 <= k < es.len() && stands_for(#[trigger] files(built(es))[i], es[k]),
        forall|i: int|
            0 <= i < files(built(es)).len() && (#[trigger] files(built(es))[i]).ignored
                ==> !files(built(es))[i].checked,
{
    let fs = files(built(es));
    assert forall|i: int| 0 <= i < fs.len() implies exists|k: int|
        0 <= k < es.len() && stands_for(#[trigger] fs[i], es[k]) by {
        assert(fs.contains(fs[i]));
        law_build_sound(es, fs[i]);
        let k = choose|k: int| 0 <= k < es.len() && fs[i] == entry_file(#[trigger] es[k]);
        assert(stands_for(fs[i], es[k]));
    }
    assert forall|i: int| 0 <= i < fs.len() && (#[trigger] fs[i]).ignored implies !fs[i].checked by {
        let k = choose|k: int| 0 <= k < es.len() && stands_for(#[trigger] fs[i], es[k]);
    }
}

/// Every entry of a directory diff (components present, none on the way to
/// another) is a file of the built tree that stands for it: with the
/// entry's path, state, ignored flag and commit line, checked exactly when
/// the entry is modified and not ignored.
pub proof fn law_entries_all_built(es: Seq<SEntry>)
    requires
        valid_entries(es),
    ensures
        forall|k: int|
            0 <= k < es.len() ==> exists|i: int|
                0 <= i < files(built(es)).len() && stands_for(files(built(es))[i], #[trigger] es[k]),
{
    broadcast use vstd::seq_lib::to_multiset_contains;
    law_build_complete(es);
    let fs = files(built(es));
    let m = es.map_values(|e: SEntry| entry_file(e));
    assert forall|k: int| 0 <= k < es.len() implies exists|i: int|
        0 <= i < fs.len() && stands_for(fs[i], #[trigger] es[k]) by {
        assert(m[k] == entry_file(es[k]));
        assert(m.contains(m[k]));
        assert(m.to_multiset().count(m[k]) > 0);
        assert(fs.to_multiset().count(m[k]) > 0);
        assert(fs.contains(m[k]));
        let i = choose|i: int| 0 <= i < fs.len() && fs[i] == m[k];
        assert(stands_for(fs[i], es[k]));
    }
}

/// What is known of the tree built from some entries, gathered.
pub proof fn lemma_build_facts(es: Seq<SEntry>)
    ensures
        forall|f: SFile|
            #[trigger] files(built(es)).contains(f) ==> exists|k: int|
                0 <= k < es.len() && f == entry_file(#[trigger] es[k]),
        forall|i: int|
            0 <= i < files(built(es)).len() ==> exists|k: int|
                0 <= k < es.len() && stands_for(#[trigger] files(built(es))[i], es[k]),
        valid_entries(es) ==> forall|k: int|
            0 <= k < es.len() ==> exists|i: int|
                0 <= i < files(built(es)).len() && stands_for(files(built(es))[i], #[trigger] es[k]),
        no_deleted_checked(files(built(es))),
        tree_sorted(built(es)),
        all_expanded(built(es)),
        collapsed(built(es)).len() == 0,
        crate::build_shape::all_shaped(built(es).children(), Seq::empty()),
        valid_entries(es) ==> files(built(es)).to_multiset() == entry_files(es) && files(
            built(es),
        ).len() == es.len() && file_paths(files(built(es))).no_duplicates(),
        (forall|k: int| 0 <= k < es.len() ==> !crate::text::is_rooted(#[trigger] es[k].path))
            ==> crate::text::distinct_paths(
            crate::tree_laws::flag_paths(crate::tree_laws::folder_flags(built(es))),
        ),
{
    assert forall|f: SFile| #[trigger] files(built(es)).contains(f) implies exists|k: int|
        0 <= k < es.len() && f == entry_file(#[trigger] es[k]) by {
        law_build_sound(es, f);
    }
    law_build_no_deleted_checked(es);
    law_built_files_stand_for_entries(es);
    if valid_entries(es) {
        law_entries_all_built(es);
        law_build_complete(es);
        law_build_file_paths_distinct(es);
    }
    law_build_sorted_expanded(es, root_path(), root_path());
    crate::build_shape::law_build_shaped(es);
    if forall|k: int| 0 <= k < es.len() ==> !crate::text::is_rooted(#[trigger] es[k].path) {
        crate::build_shape::law_build_folder_paths_distinct(es);
    }
}

// ------------------------------------------------------------------------
// A whole session
// ------------------------------------------------------------------------

/// The tree that `build_tree` gives for some entries.
pub open spec fn built(es: Seq<SEntry>) -> SNode {
    SNode::Folder {
        name: root_path(),
        path: root_path(),
        children: sorted_forest(inserted_all(es)),
        expanded: true,
    }
}

/// What a key press of the session does to the tree.
pub enum Step {
    /// Space on the row at a path.
    Toggle(Seq<char>),
    /// An arrow key on the row at a path.
    Expand(Seq<char>),
    /// `toggle` on the whole tree.
    ToggleAll,
    /// `set_checked` on the whole tree.
    SetAll(bool),
    /// `i` that changed the ignore list: the tree is built anew from the new
    /// entries, and the folders that were collapsed are collapsed again.
    Rebuild(Seq<SEntry>),
}

/// The tree after one step.
pub open spec fn after_step(t: SNode, s: Step) -> SNode {
    match s {
        Step::Toggle(p) => toggled_at(t, p).0,
        Step::Expand(p) => expand_toggled_at(t, p).0,
        Step::ToggleAll => toggled(t),
        Step::SetAll(c) => with_checked(t, c),
        Step::Rebuild(es) => with_collapsed(built(es), collapsed(t)),
    }
}

/// The tree after the steps, in order.
pub open spec fn after_steps(t: SNode, steps: Seq<Step>) -> SNode
    decreases steps.len(),
{
    if steps.len() == 0 {
        t
    } else {
        after_step(after_steps(t, steps.drop_last()), steps.last())
    }
}

/// Whatever keys the user presses in a session that starts from a built
/// tree (and whatever `toggle` or `set_checked` does to the whole tree), no deleted file is ever checked, so every path that Enter syncs is
/// that of a checked file the template has.
pub proof fn law_session_syncs_only_copyable(es: Seq<SEntry>, steps: Seq<Step>)
    ensures
        no_deleted_checked(files(after_steps(built(es), steps))),
        forall|k: int|
            0 <= k < checked_paths(files(after_steps(built(es), steps))).len() ==> copyable_path(
                files(after_steps(built(es), steps)),
                #[trigger] checked_paths(files(after_steps(built(es), steps)))[k],
            ),
    decreases steps.len(),
{
    if steps.len() == 0 {
        law_build_no_deleted_checked(es);
    } else {
        law_session_syncs_only_copyable(es, steps.drop_last());
        let t = after_steps(built(es), steps.drop_last());
        match steps.last() {
            Step::Toggle(p) => {
                law_toggle_at_keeps_deleted_unchecked(t, p);
            },
            Step::Expand(p) => {
                law_expansion_keeps_files(t, p, Seq::empty());
            },
            Step::ToggleAll => {
                lemma_files_toggled(t);
                lemma_rechecked_keeps_no_deleted_checked(files(t), files(toggled(t)));
            },
            Step::SetAll(c) => {
                lemma_files_with_checked(t, c);
                let fs = files(t);
                let gs = files(with_checked(t, c));
                assert forall|i: int| 0 <= i < gs.len() && #[trigger] gs[i].state
                    == FileState::Deleted implies !gs[i].checked by {
                    assert(gs[i] == file_with_checked(fs[i], c));
                }
            },
            Step::Rebuild(es2) => {
                law_build_no_deleted_checked(es2);
                law_expansion_keeps_files(built(es2), Seq::empty(), collapsed(t));
            },
        }
    }
    law_synced_files_are_copyable(files(after_steps(built(es), steps)));
}

} // verus!
