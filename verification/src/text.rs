//! Small verified helpers on text.

use vstd::prelude::*;
use vstd::string::{StrSliceExecFns, StringExecFns};

verus! {

/// The components of a `/`-separated path: its maximal runs of characters
/// other than `/`, in order (so repeated, leading and trailing separators
/// produce no empty component).
pub open spec fn components(p: Seq<char>) -> Seq<Seq<char>>
    decreases p.len(),
{
    if p.len() == 0 {
        Seq::empty()
    } else {
        let c = p.last();
        let rest = p.drop_last();
        let r = components(rest);
        if c == '/' {
            r
        } else if rest.len() > 0 && rest.last() != '/' {
            r.update(r.len() - 1, r.last().push(c))
        } else {
            r.push(seq![c])
        }
    }
}

/// Components joined with `/`.
pub open spec fn join_path(cs: Seq<Seq<char>>) -> Seq<char>
    decreases cs.len(),
{
    if cs.len() == 0 {
        Seq::empty()
    } else if cs.len() == 1 {
        cs[0]
    } else {
        join_path(cs.drop_last()) + seq!['/'] + cs.last()
    }
}

/// Strict lexicographic order on texts, by code point (the order of `str`).
pub open spec fn text_lt(a: Seq<char>, b: Seq<char>) -> bool
    decreases a.len(),
{
    if a.len() == 0 {
        b.len() > 0
    } else if b.len() == 0 {
        false
    } else if a[0] != b[0] {
        (a[0] as u32) < (b[0] as u32)
    } else {
        text_lt(a.drop_first(), b.drop_first())
    }
}

pub proof fn lemma_text_lt_asym(a: Seq<char>, b: Seq<char>)
    ensures
        !(text_lt(a, b) && text_lt(b, a)),
        !text_lt(a, a),
    decreases a.len(),
{
    if a.len() > 0 && b.len() > 0 && a[0] == b[0] {
        lemma_text_lt_asym(a.drop_first(), b.drop_first());
    }
    if a.len() > 0 {
        lemma_text_lt_asym(a.drop_first(), a.drop_first());
    }
}

pub proof fn lemma_text_lt_trans(a: Seq<char>, b: Seq<char>, c: Seq<char>)
    requires
        text_lt(a, b),
        text_lt(b, c),
    ensures
        text_lt(a, c),
    decreases a.len(),
{
    if a.len() > 0 && b.len() > 0 && c.len() > 0 {
        if a[0] == b[0] && b[0] == c[0] {
            lemma_text_lt_trans(a.drop_first(), b.drop_first(), c.drop_first());
        } else if a[0] == c[0] && a[0] != b[0] {
            assert(false);
        }
    }
}

/// Whether `a` sorts strictly before `b`.
pub fn text_less(a: &str, b: &str) -> (res: bool)
    ensures
        res == text_lt(a@, b@),
{
    let n = a.unicode_len();
    let m = b.unicode_len();
    let mut i: usize = 0;
    assert(a@.skip(0) =~= a@);
    assert(b@.skip(0) =~= b@);
    while i < n && i < m
        invariant
            n == a@.len(),
            m == b@.len(),
            i <= n,
            i <= m,
            text_lt(a@, b@) == text_lt(a@.skip(i as int), b@.skip(i as int)),
        decreases n - i,
    {
        let ca = a.get_char(i);
        let cb = b.get_char(i);
        if ca != cb {
            return (ca as u32) < (cb as u32);
        }
        proof {
            assert(a@.skip(i as int).drop_first() =~= a@.skip(i as int + 1));
            assert(b@.skip(i as int).drop_first() =~= b@.skip(i as int + 1));
        }
        i += 1;
    }
    i < m
}

/// Whether two strings hold the same characters.
pub fn text_eq(a: &str, b: &str) -> (res: bool)
    ensures
        res == (a@ == b@),
{
    let n = a.unicode_len();
    let m = b.unicode_len();
    if n != m {
        return false;
    }
    let mut i: usize = 0;
    while i < n
        invariant
            n == a@.len(),
            m == b@.len(),
            n == m,
            i <= n,
            forall|j: int| 0 <= j < i ==> a@[j] == b@[j],
        decreases n - i,
    {
        if a.get_char(i) != b.get_char(i) {
            return false;
        }
        i += 1;
    }
    assert(a@ =~= b@);
    true
}

/// The components of `path`, as `components` defines them.
pub fn split_components(path: &str) -> (res: Vec<String>)
    ensures
        texts_of(res@) == components(path@),
{
    let n = path.unicode_len();
    let mut out: Vec<String> = Vec::new();
    let mut start: usize = 0;
    let mut i: usize = 0;
    while i < n
        invariant
            n == path@.len(),
            start <= i <= n,
            forall|j: int| start <= j < i ==> path@[j] != '/',
            start > 0 ==> path@[start - 1] == '/',
            start == i && i > 0 ==> path@[i - 1] == '/',
            components(path@.take(i as int)) == texts_of(out@) + pending(path@, start as int, i as int),
        decreases n - i,
    {
        let c = path.get_char(i);
        proof {
            let t = path@.take(i as int + 1);
            assert(t.drop_last() =~= path@.take(i as int));
            assert(t.last() == c);
        }
        if c == '/' {
            if start < i {
                let piece = path.substring_char(start, i).to_owned();
                proof {
                    lemma_texts_of_push(out@, piece);
                }
                out.push(piece);
            }
            start = i + 1;
            proof {
                assert(pending(path@, start as int, i as int + 1) =~= Seq::<Seq<char>>::empty());
                assert(components(path@.take(i as int + 1)) =~= texts_of(out@) + pending(path@, start as int, i as int + 1));
            }
        } else {
            proof {
                let r = components(path@.take(i as int));
                if start < i {
                    assert(path@.subrange(start as int, i as int + 1) =~= path@.subrange(start as int, i as int).push(c));
                    assert(r =~= texts_of(out@).push(path@.subrange(start as int, i as int)));
                    assert(components(path@.take(i as int + 1)) =~= texts_of(out@) + pending(path@, start as int, i as int + 1));
                } else {
                    assert(path@.subrange(start as int, i as int + 1) =~= seq![c]);
                    assert(r =~= texts_of(out@));
                    assert(components(path@.take(i as int + 1)) =~= texts_of(out@) + pending(path@, start as int, i as int + 1));
                }
            }
        }
        i += 1;
    }
    if start < n {
        let piece = path.substring_char(start, n).to_owned();
        proof {
            lemma_texts_of_push(out@, piece);
        }
        out.push(piece);
    }
    proof {
        assert(path@.take(n as int) =~= path@);
        assert(texts_of(out@) =~= components(path@));
    }
    out
}

/// The run being read: `p[start..i]` when non-empty.
pub open spec fn pending(p: Seq<char>, start: int, i: int) -> Seq<Seq<char>> {
    if start < i {
        seq![p.subrange(start, i)]
    } else {
        Seq::empty()
    }
}

/// The character sequences of a list of strings.
pub open spec fn texts_of(s: Seq<String>) -> Seq<Seq<char>> {
    s.map_values(|x: String| x@)
}

pub proof fn lemma_texts_of_push(s: Seq<String>, x: String)
    ensures
        texts_of(s.push(x)) == texts_of(s).push(x@),
{
    assert(texts_of(s.push(x)) =~= texts_of(s).push(x@));
}

// ------------------------------------------------------------------------
// Paths compared as paths
// ------------------------------------------------------------------------

/// The components without the `.` ones.
pub open spec fn drop_dots(cs: Seq<Seq<char>>) -> Seq<Seq<char>>
    decreases cs.len(),
{
    if cs.len() == 0 {
        Seq::empty()
    } else if cs.last() == seq!['.'] {
        drop_dots(cs.drop_last())
    } else {
        drop_dots(cs.drop_last()).push(cs.last())
    }
}

/// Whether a path starts at the root (with `/`).
pub open spec fn is_rooted(p: Seq<char>) -> bool {
    p.len() > 0 && p[0] == '/'
}

/// Whether a relative path starts with the component `.`.
pub open spec fn leads_with_dot(p: Seq<char>) -> bool {
    p.len() > 0 && p[0] == '.' && (p.len() == 1 || p[1] == '/')
}

/// The components of a path as `std::path::Path` sees them on Unix: the
/// root (written `/`) when it starts with `/`, a leading `.` of a relative
/// path, and then the non-empty pieces between separators other than `.`.
pub open spec fn path_key(p: Seq<char>) -> Seq<Seq<char>> {
    (if is_rooted(p) {
        seq![seq!['/']]
    } else if leads_with_dot(p) {
        seq![seq!['.']]
    } else {
        Seq::empty()
    }) + drop_dots(components(p))
}

/// Two paths are the same path (the `==` of `std::path::Path`): they have
/// the same components.
pub open spec fn same_path(a: Seq<char>, b: Seq<char>) -> bool {
    path_key(a) == path_key(b)
}

/// Whether `p` is, as a path, one of `ps`.
pub open spec fn lists_path(ps: Seq<Seq<char>>, p: Seq<char>) -> bool {
    exists|k: int| 0 <= k < ps.len() && same_path(#[trigger] ps[k], p)
}

/// No two of the paths are the same path.
pub open spec fn distinct_paths(ps: Seq<Seq<char>>) -> bool {
    forall|i: int, j: int|
        0 <= i < ps.len() && 0 <= j < ps.len() && i != j ==> !same_path(
            #[trigger] ps[i],
            #[trigger] ps[j],
        )
}

/// The components of a path, as `path_key` gives them.
pub fn path_key_of(p: &str) -> (res: Vec<String>)
    ensures
        texts_of(res@) == path_key(p@),
{
    let cs = split_components(p);
    let mut out: Vec<String> = Vec::new();
    let n = p.unicode_len();
    let ghost head: Seq<Seq<char>> = if is_rooted(p@) {
        seq![seq!['/']]
    } else if leads_with_dot(p@) {
        seq![seq!['.']]
    } else {
        Seq::empty()
    };
    proof {
        reveal_strlit("/");
        reveal_strlit(".");
        assert("/"@ =~= seq!['/']);
        assert("."@ =~= seq!['.']);
        assert(texts_of(Seq::<String>::empty()) =~= Seq::<Seq<char>>::empty());
    }
    if n > 0 && p.get_char(0) == '/' {
        let r = "/".to_owned();
        proof {
            lemma_texts_of_push(out@, r);
        }
        out.push(r);
    } else if n > 0 && p.get_char(0) == '.' && (n == 1 || p.get_char(1) == '/') {
        let r = ".".to_owned();
        proof {
            lemma_texts_of_push(out@, r);
        }
        out.push(r);
    }
    assert(texts_of(out@) =~= head);
    let mut i: usize = 0;
    while i < cs.len()
        invariant
            i <= cs.len(),
            "."@ == seq!['.'],
            texts_of(out@) == head + drop_dots(texts_of(cs@).take(i as int)),
        decreases cs.len() - i,
    {
        let ghost t = texts_of(cs@).take(i as int + 1);
        proof {
            assert(t.drop_last() =~= texts_of(cs@).take(i as int));
            assert(t.last() == cs@[i as int]@);
        }
        if !text_eq(cs[i].as_str(), ".") {
            let c = cs[i].clone();
            proof {
                lemma_texts_of_push(out@, c);
            }
            out.push(c);
            assert(texts_of(out@) =~= head + drop_dots(t));
        }
        i += 1;
    }
    proof {
        assert(texts_of(cs@).take(i as int) =~= texts_of(cs@));
    }
    out
}

/// Components collected into a path, as `PathBuf` does: joined with `/`,
/// with no separator added after a leading root.
pub open spec fn join_key(cs: Seq<Seq<char>>) -> Seq<char> {
    if cs.len() > 0 && cs[0] == seq!['/'] {
        seq!['/'] + join_path(cs.drop_first())
    } else {
        join_path(cs)
    }
}

/// The first `n` components collected into a path.
pub fn join_key_of(cs: &[String], n: usize) -> (res: String)
    requires
        n <= cs@.len(),
    ensures
        res@ == join_key(texts_of(cs@).take(n as int)),
{
    let ghost t = texts_of(cs@);
    proof {
        reveal_strlit("/");
        assert("/"@ =~= seq!['/']);
    }
    let rooted = n > 0 && text_eq(cs[0].as_str(), "/");
    let mut out = String::new();
    let start: usize = if rooted {
        out.append("/");
        1
    } else {
        0
    };
    let ghost head: Seq<char> = out@;
    assert(t.subrange(start as int, start as int) =~= Seq::<Seq<char>>::empty());
    let mut i: usize = start;
    while i < n
        invariant
            n <= cs@.len(),
            t == texts_of(cs@),
            "/"@ == seq!['/'],
            start <= i <= n,
            out@ == head + join_path(t.subrange(start as int, i as int)),
        decreases n - i,
    {
        let ghost u = t.subrange(start as int, i as int + 1);
        proof {
            assert(u.drop_last() =~= t.subrange(start as int, i as int));
            assert(u.last() == cs@[i as int]@);
        }
        if i > start {
            out.append("/");
        }
        out.append(cs[i].as_str());
        proof {
            if i == start {
                assert(u.len() == 1);
                assert(out@ =~= head + join_path(u));
            } else {
                assert(out@ =~= head + join_path(u));
            }
        }
        i += 1;
    }
    proof {
        let tn = t.take(n as int);
        if rooted {
            assert(tn.drop_first() =~= t.subrange(1, n as int));
            assert(head =~= seq!['/']);
        } else {
            assert(tn =~= t.subrange(0, n as int));
            assert(head =~= Seq::<char>::empty());
            assert(out@ =~= join_path(tn));
        }
    }
    out
}

/// Whether two paths are the same path (`Path`'s `==`).
pub fn path_eq(a: &str, b: &str) -> (res: bool)
    ensures
        res == same_path(a@, b@),
{
    let ka = path_key_of(a);
    let kb = path_key_of(b);
    if ka.len() != kb.len() {
        assert(texts_of(ka@).len() != texts_of(kb@).len());
        return false;
    }
    let mut i: usize = 0;
    while i < ka.len()
        invariant
            ka.len() == kb.len(),
            texts_of(ka@) == path_key(a@),
            texts_of(kb@) == path_key(b@),
            i <= ka.len(),
            forall|j: int| 0 <= j < i ==> ka@[j]@ == kb@[j]@,
        decreases ka.len() - i,
    {
        if !text_eq(ka[i].as_str(), kb[i].as_str()) {
            assert(texts_of(ka@)[i as int] == ka@[i as int]@);
            assert(texts_of(kb@)[i as int] == kb@[i as int]@);
            assert(texts_of(ka@)[i as int] != texts_of(kb@)[i as int]);
            return false;
        }
        i += 1;
    }
    assert(texts_of(ka@) =~= texts_of(kb@));
    true
}

// ------------------------------------------------------------------------
// Components read back from a joined path
// ------------------------------------------------------------------------

/// A component as paths have them between separators: not empty, no `/`,
/// not `.`.
pub open spec fn plain_part(c: Seq<char>) -> bool {
    &&& c.len() > 0
    &&& forall|k: int| 0 <= k < c.len() ==> c[k] != '/'
    &&& c != seq!['.']
}

/// Components as `path_key` gives them: plain ones, the first of which may
/// instead be the root `/` or a leading `.`.
pub open spec fn good_parts(cs: Seq<Seq<char>>) -> bool {
    &&& cs.len() > 0 ==> (plain_part(cs[0]) || cs[0] == seq!['.'] || cs[0] == seq!['/'])
    &&& forall|i: int| 1 <= i < cs.len() ==> plain_part(#[trigger] cs[i])
}

proof fn lemma_components_parts(p: Seq<char>)
    ensures
        forall|i: int| 0 <= i < components(p).len() ==> (#[trigger] components(p)[i]).len() > 0
            && forall|k: int| 0 <= k < components(p)[i].len() ==> components(p)[i][k] != '/',
        p.len() > 0 && p.last() != '/' ==> components(p).len() > 0,
    decreases p.len(),
{
    if p.len() > 0 {
        let c = p.last();
        let rest = p.drop_last();
        lemma_components_parts(rest);
        let r = components(rest);
        if c != '/' && rest.len() > 0 && rest.last() != '/' {
            let u = r.update(r.len() - 1, r.last().push(c));
            assert forall|i: int| 0 <= i < u.len() implies (#[trigger] u[i]).len() > 0
                && forall|k: int| 0 <= k < u[i].len() ==> u[i][k] != '/' by {
                if i == r.len() - 1 {
                    assert(u[i] == r[i].push(c));
                    assert forall|k: int| 0 <= k < u[i].len() implies u[i][k] != '/' by {
                        if k < r[i].len() {
                            assert(u[i][k] == r[i][k]);
                        }
                    }
                }
            }
        } else if c != '/' {
            let u = r.push(seq![c]);
            assert forall|i: int| 0 <= i < u.len() implies (#[trigger] u[i]).len() > 0
                && forall|k: int| 0 <= k < u[i].len() ==> u[i][k] != '/' by {
                if i < r.len() {
                    assert(u[i] == r[i]);
                }
            }
        }
    }
}

proof fn lemma_drop_dots_members(cs: Seq<Seq<char>>)
    ensures
        forall|i: int| 0 <= i < drop_dots(cs).len() ==> exists|j: int|
            0 <= j < cs.len() && cs[j] == #[trigger] drop_dots(cs)[i] && cs[j] != seq!['.'],
    decreases cs.len(),
{
    if cs.len() > 0 {
        lemma_drop_dots_members(cs.drop_last());
        let r = drop_dots(cs.drop_last());
        assert forall|i: int| 0 <= i < drop_dots(cs).len() implies exists|j: int|
            0 <= j < cs.len() && cs[j] == #[trigger] drop_dots(cs)[i] && cs[j] != seq!['.'] by {
            if i < r.len() {
                assert(drop_dots(cs)[i] == r[i]);
                let j = choose|j: int|
                    0 <= j < cs.drop_last().len() && cs.drop_last()[j] == #[trigger] r[i]
                        && cs.drop_last()[j] != seq!['.'];
                assert(cs[j] == cs.drop_last()[j]);
            } else {
                assert(drop_dots(cs)[i] == cs[cs.len() - 1]);
            }
        }
    }
}

/// The components of any path are good ones.
pub proof fn lemma_path_key_good(p: Seq<char>)
    ensures
        good_parts(path_key(p)),
        !is_rooted(p) && path_key(p).len() > 0 ==> path_key(p)[0] != seq!['/'],
{
    let cs = components(p);
    lemma_components_parts(p);
    lemma_drop_dots_members(cs);
    let d = drop_dots(cs);
    assert forall|i: int| 0 <= i < d.len() implies plain_part(#[trigger] d[i]) by {
        let j = choose|j: int| 0 <= j < cs.len() && cs[j] == #[trigger] d[i] && cs[j] != seq!['.'];
        assert(cs[j].len() > 0);
    }
    let k = path_key(p);
    if is_rooted(p) || leads_with_dot(p) {
        assert forall|i: int| 1 <= i < k.len() implies plain_part(#[trigger] k[i]) by {
            assert(k[i] == d[i - 1]);
        }
        if !is_rooted(p) {
            assert(k[0] == seq!['.']);
            assert(seq!['.'][0] != seq!['/'][0]);
        }
    } else {
        assert(k =~= d);
        if k.len() > 0 {
            assert(plain_part(d[0]));
            assert(seq!['/'][0] == '/');
        }
    }
}

proof fn lemma_components_after_root(y: Seq<char>)
    ensures
        components(seq!['/'] + y) == components(y),
    decreases y.len(),
{
    let z = seq!['/'] + y;
    if y.len() == 0 {
        assert(z =~= seq!['/']);
        assert(z.drop_last() =~= Seq::<char>::empty());
        assert(components(z) == components(z.drop_last()));
    } else {
        let y1 = y.drop_last();
        let c = y.last();
        lemma_components_after_root(y1);
        assert(z.drop_last() =~= seq!['/'] + y1);
        assert(z.last() == c);
        let rest = z.drop_last();
        if y1.len() > 0 {
            assert(rest.last() == y1.last());
        } else {
            assert(rest.last() == '/');
        }
        assert(components(rest) == components(y1));
        if c == '/' {
            assert(components(z) == components(rest));
            assert(components(y) == components(y1));
        } else if y1.len() > 0 && y1.last() != '/' {
            let r = components(y1);
            assert(components(z) == r.update(r.len() - 1, r.last().push(c)));
            assert(components(y) == r.update(r.len() - 1, r.last().push(c)));
        } else {
            assert(components(z) == components(y1).push(seq![c]));
            assert(components(y) == components(y1).push(seq![c]));
        }
    }
}

proof fn lemma_components_join(x: Seq<char>, y: Seq<char>)
    requires
        y.len() > 0,
        forall|k: int| 0 <= k < y.len() ==> y[k] != '/',
    ensures
        components(x + seq!['/'] + y) == components(x).push(y),
    decreases y.len(),
{
    let z = x + seq!['/'] + y;
    let y1 = y.drop_last();
    let c = y.last();
    let rest = z.drop_last();
    assert(rest =~= x + seq!['/'] + y1);
    assert(z.last() == c);
    assert(c != '/');
    if y.len() == 1 {
        assert(rest =~= x.push('/'));
        assert(rest.last() == '/');
        assert(rest.drop_last() =~= x);
        assert(components(rest) == components(x));
        assert(components(z) == components(rest).push(seq![c]));
        assert(y =~= seq![c]);
    } else {
        lemma_components_join(x, y1);
        assert(rest.last() == y1.last());
        assert(y1.last() != '/');
        let r = components(rest);
        assert(r == components(x).push(y1));
        assert(components(z) == r.update(r.len() - 1, r.last().push(c)));
        assert(y1.push(c) =~= y);
        assert(r.update(r.len() - 1, r.last().push(c)) =~= components(x).push(y));
    }
}

proof fn lemma_components_join_path(cs: Seq<Seq<char>>)
    requires
        forall|i: int| 0 <= i < cs.len() ==> (#[trigger] cs[i]).len() > 0 && forall|k: int|
            0 <= k < cs[i].len() ==> cs[i][k] != '/',
    ensures
        components(join_path(cs)) == cs,
        cs.len() > 0 ==> join_path(cs).len() > 0 && join_path(cs)[0] == cs[0][0],
        cs.len() > 0 ==> cs[0].is_prefix_of(join_path(cs)),
        cs.len() > 1 ==> join_path(cs)[cs[0].len() as int] == '/',
    decreases cs.len(),
{
    if cs.len() == 0 {
        assert(components(Seq::<char>::empty()) =~= Seq::<Seq<char>>::empty());
    } else if cs.len() == 1 {
        let y = cs[0];
        lemma_components_join_single(y);
        assert(cs =~= seq![y]);
    } else {
        let d = cs.drop_last();
        assert forall|i: int| 0 <= i < d.len() implies (#[trigger] d[i]).len() > 0 && forall|k: int|
            0 <= k < d[i].len() ==> d[i][k] != '/' by {
            assert(d[i] == cs[i]);
        }
        lemma_components_join_path(d);
        lemma_components_join(join_path(d), cs.last());
        assert(d.push(cs.last()) =~= cs);
        let j = join_path(cs);
        assert(j == join_path(d) + seq!['/'] + cs.last());
        assert(d[0] == cs[0]);
        if d.len() > 1 {
        } else {
            assert(join_path(d) == d[0]);
        }
        assert(cs[0].is_prefix_of(j)) by {
            assert forall|k: int| 0 <= k < cs[0].len() implies cs[0][k] == j[k] by {
                assert(j[k] == join_path(d)[k]);
            }
        }
    }
}

proof fn lemma_components_join_single(y: Seq<char>)
    requires
        y.len() > 0,
        forall|k: int| 0 <= k < y.len() ==> y[k] != '/',
    ensures
        components(y) == seq![y],
    decreases y.len(),
{
    let y1 = y.drop_last();
    let c = y.last();
    if y.len() == 1 {
        assert(y1 =~= Seq::<char>::empty());
        assert(components(y1) =~= Seq::<Seq<char>>::empty());
        assert(components(y) == components(y1).push(seq![c]));
        assert(y =~= seq![c]);
        assert(components(y) =~= seq![y]);
    } else {
        lemma_components_join_single(y1);
        assert(y1.last() != '/');
        assert(c != '/');
        let r = components(y1);
        assert(components(y) == r.update(r.len() - 1, r.last().push(c)));
        assert(y1.push(c) =~= y);
        assert(r.update(r.len() - 1, r.last().push(c)) =~= seq![y]);
    }
}

proof fn lemma_drop_dots_plain(cs: Seq<Seq<char>>)
    requires
        forall|i: int| 0 <= i < cs.len() ==> plain_part(#[trigger] cs[i]),
    ensures
        drop_dots(cs) == cs,
    decreases cs.len(),
{
    if cs.len() > 0 {
        assert forall|i: int| 0 <= i < cs.drop_last().len() implies plain_part(#[trigger] cs.drop_last()[i]) by {
            assert(cs.drop_last()[i] == cs[i]);
        }
        lemma_drop_dots_plain(cs.drop_last());
        assert(plain_part(cs[cs.len() - 1]));
        assert(cs.drop_last().push(cs.last()) =~= cs);
    }
}

proof fn lemma_drop_dots_lead(cs: Seq<Seq<char>>)
    requires
        cs.len() > 0,
        cs[0] == seq!['.'],
        forall|i: int| 1 <= i < cs.len() ==> plain_part(#[trigger] cs[i]),
    ensures
        drop_dots(cs) == cs.drop_first(),
    decreases cs.len(),
{
    let d = cs.drop_last();
    if cs.len() == 1 {
        assert(d =~= Seq::<Seq<char>>::empty());
        assert(cs.last() == seq!['.']);
        assert(drop_dots(cs) == drop_dots(d));
        assert(cs.drop_first() =~= Seq::<Seq<char>>::empty());
    } else {
        assert forall|i: int| 1 <= i < d.len() implies plain_part(#[trigger] d[i]) by {
            assert(d[i] == cs[i]);
        }
        lemma_drop_dots_lead(d);
        assert(plain_part(cs[cs.len() - 1]));
        assert(cs.last() != seq!['.']);
        assert(drop_dots(cs) == drop_dots(d).push(cs.last()));
        assert(d.drop_first().push(cs.last()) =~= cs.drop_first());
    }
}

/// Joining good components into a path and reading its components back
/// gives the same components.
pub proof fn lemma_key_of_join(cs: Seq<Seq<char>>)
    requires
        cs.len() > 0,
        good_parts(cs),
    ensures
        path_key(join_key(cs)) == cs,
{
    if cs[0] == seq!['/'] {
        let rest = cs.drop_first();
        assert forall|i: int| 0 <= i < rest.len() implies (#[trigger] rest[i]).len() > 0 && forall|k: int|
            0 <= k < rest[i].len() ==> rest[i][k] != '/' by {
            assert(rest[i] == cs[i + 1]);
            assert(plain_part(cs[i + 1]));
        }
        assert forall|i: int| 0 <= i < rest.len() implies plain_part(#[trigger] rest[i]) by {
            assert(rest[i] == cs[i + 1]);
        }
        lemma_components_join_path(rest);
        lemma_components_after_root(join_path(rest));
        lemma_drop_dots_plain(rest);
        let p = join_key(cs);
        assert(p == seq!['/'] + join_path(rest));
        assert(is_rooted(p));
        assert(path_key(p) =~= seq![seq!['/']] + rest);
        assert(seq![seq!['/']] + rest =~= cs);
    } else {
        assert forall|i: int| 0 <= i < cs.len() implies (#[trigger] cs[i]).len() > 0 && forall|k: int|
            0 <= k < cs[i].len() ==> cs[i][k] != '/' by {
            if i > 0 {
                assert(plain_part(cs[i]));
            }
        }
        lemma_components_join_path(cs);
        let p = join_path(cs);
        assert(p == join_key(cs));
        assert(cs[0].is_prefix_of(p));
        assert(p[0] == cs[0][0]);
        assert(!is_rooted(p));
        if cs[0] == seq!['.'] {
            lemma_drop_dots_lead(cs);
            assert(leads_with_dot(p)) by {
                if p.len() > 1 {
                    if cs.len() > 1 {
                        assert(p[1] == '/');
                    } else {
                        assert(p == cs[0]);
                    }
                }
            }
            assert(path_key(p) =~= seq![seq!['.']] + cs.drop_first());
        } else {
            assert(plain_part(cs[0]));
            assert(!leads_with_dot(p)) by {
                if p[0] == '.' {
                    if cs[0].len() == 1 {
                        assert(cs[0] =~= seq!['.']);
                    } else {
                        assert(p[1] == cs[0][1]);
                    }
                }
            }
            lemma_drop_dots_plain(cs);
            assert(path_key(p) =~= cs);
        }
    }
}

// ------------------------------------------------------------------------
// Whitespace, trimming and lines
// ------------------------------------------------------------------------

/// Unicode `White_Space`, the whitespace of `str::trim`.
pub open spec fn is_space(c: char) -> bool {
    let v = c as u32;
    (0x9 <= v <= 0xd) || v == 0x20 || v == 0x85 || v == 0xa0 || v == 0x1680 || (0x2000 <= v
        <= 0x200a) || v == 0x2028 || v == 0x2029 || v == 0x202f || v == 0x205f || v == 0x3000
}

/// Number of leading whitespace characters of `s` from index `i` on.
pub open spec fn lead_from(s: Seq<char>, i: int) -> int
    decreases s.len() - i,
{
    if i < 0 || i >= s.len() {
        0
    } else if is_space(s[i]) {
        1 + lead_from(s, i + 1)
    } else {
        0
    }
}

/// Number of trailing whitespace characters of `s.take(j)`.
pub open spec fn trail_to(s: Seq<char>, j: int) -> int
    decreases j,
{
    if j <= 0 || j > s.len() {
        0
    } else if is_space(s[j - 1]) {
        1 + trail_to(s, j - 1)
    } else {
        0
    }
}

/// `s` without its leading and trailing whitespace.
pub open spec fn trimmed(s: Seq<char>) -> Seq<char> {
    let a = lead_from(s, 0);
    if a >= s.len() {
        Seq::empty()
    } else {
        s.subrange(a, s.len() - trail_to(s, s.len() as int))
    }
}

proof fn lemma_lead_from(s: Seq<char>, i: int)
    requires
        0 <= i <= s.len(),
    ensures
        0 <= lead_from(s, i) <= s.len() - i,
        forall|k: int| i <= k < i + lead_from(s, i) ==> is_space(#[trigger] s[k]),
        i + lead_from(s, i) < s.len() ==> !is_space(s[i + lead_from(s, i)]),
    decreases s.len() - i,
{
    if i < s.len() && is_space(s[i]) {
        lemma_lead_from(s, i + 1);
    }
}

proof fn lemma_trail_to(s: Seq<char>, j: int)
    requires
        0 <= j <= s.len(),
    ensures
        0 <= trail_to(s, j) <= j,
        forall|k: int| j - trail_to(s, j) <= k < j ==> is_space(#[trigger] s[k]),
        j - trail_to(s, j) > 0 ==> !is_space(s[j - trail_to(s, j) - 1]),
    decreases j,
{
    if j > 0 && is_space(s[j - 1]) {
        lemma_trail_to(s, j - 1);
    }
}

/// Whether `c` is whitespace.
pub fn char_is_space(c: char) -> (res: bool)
    ensures
        res == is_space(c),
{
    let v = c as u32;
    (0x9 <= v && v <= 0xd) || v == 0x20 || v == 0x85 || v == 0xa0 || v == 0x1680 || (0x2000 <= v
        && v <= 0x200a) || v == 0x2028 || v == 0x2029 || v == 0x202f || v == 0x205f || v == 0x3000
}

/// `s` without its leading and trailing whitespace, as `str::trim` gives it.
pub fn trim_text(s: &str) -> (res: &str)
    ensures
        res@ == trimmed(s@),
{
    let n = s.unicode_len();
    proof {
        lemma_lead_from(s@, 0);
        lemma_trail_to(s@, n as int);
    }
    let mut a: usize = 0;
    while a < n && char_is_space(s.get_char(a))
        invariant
            n == s@.len(),
            a <= lead_from(s@, 0),
            lead_from(s@, 0) <= n,
            forall|k: int| 0 <= k < lead_from(s@, 0) ==> is_space(#[trigger] s@[k]),
            lead_from(s@, 0) < n ==> !is_space(s@[lead_from(s@, 0)]),
        decreases n - a,
    {
        a += 1;
    }
    assert(a == lead_from(s@, 0));
    if a >= n {
        return s.substring_char(0, 0);
    }
    let mut b: usize = n;
    while b > a && char_is_space(s.get_char(b - 1))
        invariant
            n == s@.len(),
            a < n,
            a == lead_from(s@, 0),
            !is_space(s@[a as int]),
            a < b <= n,
            n - b <= trail_to(s@, n as int),
            trail_to(s@, n as int) <= n,
            forall|k: int| n - trail_to(s@, n as int) <= k < n ==> is_space(#[trigger] s@[k]),
            n - trail_to(s@, n as int) > 0 ==> !is_space(s@[n - trail_to(s@, n as int) - 1]),
        decreases b,
    {
        b -= 1;
    }
    assert(b == n - trail_to(s@, n as int));
    s.substring_char(a, b)
}

/// The pieces of `t` cut after each `\n` (the last one may lack it).
pub open spec fn line_pieces(t: Seq<char>) -> Seq<Seq<char>>
    decreases t.len(),
{
    if t.len() == 0 {
        Seq::empty()
    } else {
        let r = line_pieces(t.drop_last());
        let c = t.last();
        if r.len() == 0 || r.last().last() == '\n' {
            r.push(seq![c])
        } else {
            r.update(r.len() - 1, r.last().push(c))
        }
    }
}

/// A piece without its line ending (`\n` or `\r\n`).
pub open spec fn strip_line_end(piece: Seq<char>) -> Seq<char> {
    if piece.len() > 0 && piece.last() == '\n' {
        let q = piece.drop_last();
        if q.len() > 0 && q.last() == '\r' {
            q.drop_last()
        } else {
            q
        }
    } else {
        piece
    }
}

/// The lines of `t`, as `str::lines` gives them.
pub open spec fn lines_of(t: Seq<char>) -> Seq<Seq<char>> {
    line_pieces(t).map_values(|p: Seq<char>| strip_line_end(p))
}

/// The lines of `text`, as `str::lines` splits them.
pub fn split_lines(text: &str) -> (res: Vec<String>)
    ensures
        texts_of(res@) == lines_of(text@),
{
    let n = text.unicode_len();
    let mut out: Vec<String> = Vec::new();
    let ghost mut done: Seq<Seq<char>> = Seq::empty();
    let mut start: usize = 0;
    let mut i: usize = 0;
    while i < n
        invariant
            n == text@.len(),
            start <= i <= n,
            forall|j: int| start <= j < i ==> text@[j] != '\n',
            start == i && done.len() > 0 ==> done.last().len() > 0 && done.last().last() == '\n',
            line_pieces(text@.take(i as int)) == done + pending(text@, start as int, i as int),
            texts_of(out@) == done.map_values(|p: Seq<char>| strip_line_end(p)),
        decreases n - i,
    {
        let c = text.get_char(i);
        proof {
            let t = text@.take(i as int + 1);
            assert(t.drop_last() =~= text@.take(i as int));
            assert(t.last() == c);
            let r = line_pieces(text@.take(i as int));
            if start < i {
                assert(r.last() == text@.subrange(start as int, i as int));
                assert(r.last().last() == text@[i - 1]);
                assert(text@.subrange(start as int, i as int + 1) =~= text@.subrange(
                    start as int,
                    i as int,
                ).push(c));
            } else {
                assert(text@.subrange(start as int, i as int + 1) =~= seq![c]);
            }
            assert(line_pieces(text@.take(i as int + 1)) =~= done.push(
                text@.subrange(start as int, i as int + 1),
            ));
        }
        if c == '\n' {
            let end = if i > start && text.get_char(i - 1) == '\r' {
                i - 1
            } else {
                i
            };
            let piece = text.substring_char(start, end).to_owned();
            proof {
                let full = text@.subrange(start as int, i as int + 1);
                assert(full.drop_last() =~= text@.subrange(start as int, i as int));
                assert(strip_line_end(full) =~= piece@);
                lemma_texts_of_push(out@, piece);
                assert(done.push(full).map_values(|p: Seq<char>| strip_line_end(p))
                    =~= done.map_values(|p: Seq<char>| strip_line_end(p)).push(piece@));
                done = done.push(full);
            }
            out.push(piece);
            start = i + 1;
            proof {
                assert(pending(text@, start as int, i as int + 1) =~= Seq::<Seq<char>>::empty());
                assert(line_pieces(text@.take(i as int + 1)) =~= done + pending(
                    text@,
                    start as int,
                    i as int + 1,
                ));
            }
        } else {
            proof {
                assert(line_pieces(text@.take(i as int + 1)) =~= done + pending(
                    text@,
                    start as int,
                    i as int + 1,
                ));
            }
        }
        i += 1;
    }
    if start < n {
        let piece = text.substring_char(start, n).to_owned();
        proof {
            let last = text@.subrange(start as int, n as int);
            assert(last.last() == text@[n - 1]);
            assert(strip_line_end(last) == last);
            lemma_texts_of_push(out@, piece);
            assert(done.push(last).map_values(|p: Seq<char>| strip_line_end(p)) =~= done.map_values(
                |p: Seq<char>| strip_line_end(p),
            ).push(piece@));
            done = done.push(last);
        }
        out.push(piece);
    }
    proof {
        assert(text@.take(n as int) =~= text@);
        assert(line_pieces(text@) =~= done);
    }
    out
}

/// A path with every `\` turned into `/`.
pub open spec fn slashed(p: Seq<char>) -> Seq<char> {
    p.map_values(|c: char| if c == '\\' { '/' } else { c })
}

/// Normalize a relative path to a forward-slash pattern (globset matches on
/// `/`-separated paths; Windows walk output uses `\`).
pub fn to_pattern(rel_path: &str) -> (res: String)
    ensures
        res@ == slashed(rel_path@),
{
    let n = rel_path.unicode_len();
    let mut out = String::new();
    let mut start: usize = 0;
    let mut i: usize = 0;
    proof {
        reveal_strlit("/");
        assert("/"@ =~= seq!['/']);
    }
    while i < n
        invariant
            n == rel_path@.len(),
            start <= i <= n,
            "/"@ == seq!['/'],
            forall|j: int| start <= j < i ==> rel_path@[j] != '\\',
            out@ == slashed(rel_path@.take(start as int)),
        decreases n - i,
    {
        if rel_path.get_char(i) == '\\' {
            let piece = rel_path.substring_char(start, i);
            out.append(piece);
            out.append("/");
            proof {
                assert(slashed(rel_path@.take(i as int + 1)) =~= slashed(rel_path@.take(start as int))
                    + rel_path@.subrange(start as int, i as int) + seq!['/']);
            }
            start = i + 1;
        }
        i += 1;
    }
    let piece = rel_path.substring_char(start, n);
    out.append(piece);
    proof {
        assert(slashed(rel_path@) =~= slashed(rel_path@.take(start as int)) + rel_path@.subrange(
            start as int,
            n as int,
        ));
    }
    out
}

} // verus!