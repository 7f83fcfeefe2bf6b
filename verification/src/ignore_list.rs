//! `.reesyncignore` support.
//!
//! A clone-owned skip-list living at `<project>/.reesyncignore`. Each non-blank,
//! non-`#` line is a glob pattern (globset syntax) matched against the
//! project-root-relative path of each diff entry. Matched files are shown but
//! pre-unchecked and dimmed - never hidden (visible skips only).
//!
//! Reading and writing the file is left to the caller: `load` takes its text
//! and `contents` gives the text to write back.

use vstd::prelude::*;

use globset::{Glob, GlobSet, GlobSetBuilder};

use crate::text::{
    lemma_texts_of_push, line_pieces, lines_of, strip_line_end, slashed, split_lines, texts_of, to_pattern, trim_text, trimmed,
};

verus! {

// ------------------------------------------------------------------------
// globset, as this library relies on it
// ------------------------------------------------------------------------

#[verifier::external_type_specification]
#[verifier::external_body]
pub struct ExGlobSet(GlobSet);

#[verifier::external_type_specification]
#[verifier::external_body]
pub struct ExGlobSetBuilder(GlobSetBuilder);

#[verifier::external_type_specification]
#[verifier::external_body]
pub struct ExGlobError(globset::Error);

/// Whether `globset::Glob::new` accepts the pattern.
pub uninterp spec fn glob_parses(pattern: Seq<char>) -> bool;

/// Whether the matcher compiled from the pattern by globset matches the path.
pub uninterp spec fn glob_matches(pattern: Seq<char>, path: Seq<char>) -> bool;

/// The patterns added to a `GlobSetBuilder`, in order.
pub uninterp spec fn builder_patterns(b: GlobSetBuilder) -> Seq<Seq<char>>;

/// The patterns a `GlobSet` was built from, in order.
pub uninterp spec fn set_patterns(s: GlobSet) -> Seq<Seq<char>>;

/// Whether `GlobSetBuilder::build` succeeds on these patterns (it compiles
/// them into regular expressions, which can exceed globset's size limits).
pub uninterp spec fn glob_set_builds(patterns: Seq<Seq<char>>) -> bool;

/// `GlobSetBuilder::new`: a builder that holds no pattern.
#[verifier::external_body]
fn new_builder() -> (b: GlobSetBuilder)
    ensures
        builder_patterns(b) == Seq::<Seq<char>>::empty(),
{
    GlobSetBuilder::new()
}

/// `GlobSetBuilder::add`, given the glob that `Glob::new` parses from
/// `pattern`: the pattern is added exactly when it parses.
#[verifier::external_body]
fn add_pattern(builder: &mut GlobSetBuilder, pattern: &str) -> (added: bool)
    ensures
        added == glob_parses(pattern@),
        builder_patterns(*final(builder)) == if added {
            builder_patterns(*old(builder)).push(pattern@)
        } else {
            builder_patterns(*old(builder))
        },
{
    match Glob::new(pattern) {
        Ok(glob) => {
            builder.add(glob);
            true
        },
        Err(_) => false,
    }
}

/// `GlobSetBuilder::build`: on success the set holds the builder's patterns.
#[verifier::external_body]
fn build_set(builder: &GlobSetBuilder) -> (res: Result<GlobSet, globset::Error>)
    ensures
        res is Ok == glob_set_builds(builder_patterns(*builder)),
        res matches Ok(s) ==> set_patterns(s) == builder_patterns(*builder),
{
    builder.build()
}

/// `GlobSet::empty`: a set that holds no pattern.
#[verifier::external_body]
fn empty_set() -> (s: GlobSet)
    ensures
        set_patterns(s) == Seq::<Seq<char>>::empty(),
{
    GlobSet::empty()
}

/// `GlobSet::is_match`: whether any glob of the set matches the path.
#[verifier::external_body]
fn set_matches(set: &GlobSet, path: &str) -> (res: bool)
    ensures
        res == (exists|i: int| 0 <= i < set_patterns(*set).len() && glob_matches(#[trigger] set_patterns(*set)[i], path@)),
{
    set.is_match(path)
}

// ------------------------------------------------------------------------
// The model of the list
// ------------------------------------------------------------------------

/// Whether a trimmed line holds a pattern (it is neither blank nor a comment).
pub open spec fn is_pattern_line(t: Seq<char>) -> bool {
    t.len() > 0 && t[0] != '#'
}

/// The patterns of the list, in order: trimmed pattern lines that parse.
pub open spec fn active_patterns(ls: Seq<Seq<char>>) -> Seq<Seq<char>>
    decreases ls.len(),
{
    if ls.len() == 0 {
        Seq::empty()
    } else {
        let r = active_patterns(ls.drop_last());
        let t = trimmed(ls.last());
        if is_pattern_line(t) && glob_parses(t) {
            r.push(t)
        } else {
            r
        }
    }
}

/// The pattern lines that do not parse, trimmed, in order.
pub open spec fn rejected_patterns(ls: Seq<Seq<char>>) -> Seq<Seq<char>>
    decreases ls.len(),
{
    if ls.len() == 0 {
        Seq::empty()
    } else {
        let r = rejected_patterns(ls.drop_last());
        let t = trimmed(ls.last());
        if is_pattern_line(t) && !glob_parses(t) {
            r.push(t)
        } else {
            r
        }
    }
}

/// The patterns the matcher holds: all the list's patterns, or none when
/// globset cannot build a set of them.
pub open spec fn matcher_patterns(ls: Seq<Seq<char>>) -> Seq<Seq<char>> {
    if glob_set_builds(active_patterns(ls)) {
        active_patterns(ls)
    } else {
        Seq::empty()
    }
}

/// Whether a path is ignored by the list: some pattern of it matches.
pub open spec fn ignored_by(ls: Seq<Seq<char>>, path: Seq<char>) -> bool {
    exists|i: int|
        0 <= i < matcher_patterns(ls).len() && glob_matches(
            #[trigger] matcher_patterns(ls)[i],
            path,
        )
}

/// Whether `path` is an exact line of the list (surrounding whitespace aside).
pub open spec fn has_exact_line(ls: Seq<Seq<char>>, path: Seq<char>) -> bool {
    exists|i: int| 0 <= i < ls.len() && trimmed(#[trigger] ls[i]) == slashed(path)
}

/// Whether a glob set of the one pattern can be built and matches `path`.
pub open spec fn single_match(pattern: Seq<char>, path: Seq<char>) -> bool {
    glob_parses(pattern) && glob_set_builds(seq![pattern]) && glob_matches(pattern, path)
}

/// The first pattern line, from index `i` on, that matches `path` on its own.
pub open spec fn first_match_from(ls: Seq<Seq<char>>, path: Seq<char>, i: int) -> Option<
    Seq<char>,
>
    decreases ls.len() - i,
{
    if i < 0 || i >= ls.len() {
        None
    } else {
        let t = trimmed(ls[i]);
        if is_pattern_line(t) && single_match(t, path) {
            Some(t)
        } else {
            first_match_from(ls, path, i + 1)
        }
    }
}

/// The lines of the list once the exact line for `path` is removed.
pub open spec fn without_exact(ls: Seq<Seq<char>>, path: Seq<char>) -> Seq<Seq<char>> {
    ls.filter(|l: Seq<char>| trimmed(l) != slashed(path))
}

/// Whether some line of the list holds more than whitespace.
pub open spec fn has_content(ls: Seq<Seq<char>>) -> bool {
    exists|i: int| 0 <= i < ls.len() && trimmed(#[trigger] ls[i]).len() > 0
}

/// The text of the list's file: every line followed by `\n`.
pub open spec fn joined_lines(ls: Seq<Seq<char>>) -> Seq<char>
    decreases ls.len(),
{
    if ls.len() == 0 {
        Seq::empty()
    } else {
        joined_lines(ls.drop_last()) + ls.last() + seq!['\n']
    }
}

/// Whether `matching_glob` reports nothing for the path: it is an exact
/// line, or no pattern line matches it.
pub open spec fn no_glob_match(ls: Seq<Seq<char>>, path: Seq<char>) -> bool {
    has_exact_line(ls, path) || first_match_from(ls, path, 0) is None
}

/// Whether every path is an exact line of the list.
pub open spec fn all_exact(ls: Seq<Seq<char>>, ps: Seq<Seq<char>>) -> bool {
    forall|i: int| 0 <= i < ps.len() ==> has_exact_line(ls, #[trigger] ps[i])
}

/// The list after adding, in order, an exact line for each path not yet one.
pub open spec fn added_all(ls: Seq<Seq<char>>, ps: Seq<Seq<char>>) -> Seq<Seq<char>>
    decreases ps.len(),
{
    if ps.len() == 0 {
        ls
    } else {
        let acc = added_all(ls, ps.drop_last());
        if has_exact_line(acc, ps.last()) {
            acc
        } else {
            acc.push(slashed(ps.last()))
        }
    }
}

/// The list after removing, in order, the exact lines of the paths.
pub open spec fn removed_all(ls: Seq<Seq<char>>, ps: Seq<Seq<char>>) -> Seq<Seq<char>>
    decreases ps.len(),
{
    if ps.len() == 0 {
        ls
    } else {
        without_exact(removed_all(ls, ps.drop_last()), ps.last())
    }
}

/// Toggling a group of paths: when every one is an exact line they are all
/// removed, otherwise those not yet exact are added.
pub open spec fn group_toggled(ls: Seq<Seq<char>>, ps: Seq<Seq<char>>) -> Seq<Seq<char>> {
    if all_exact(ls, ps) {
        removed_all(ls, ps)
    } else {
        added_all(ls, ps)
    }
}

// ------------------------------------------------------------------------
// The list
// ------------------------------------------------------------------------

/// Compiled ignore patterns plus the raw lines (kept so the TUI can add/remove
/// exact-path lines without losing comments or ordering).
pub struct IgnoreList {
    lines: Vec<String>,
    set: GlobSet,
    rejected: Vec<String>,
}

impl View for IgnoreList {
    type V = Seq<Seq<char>>;

    closed spec fn view(&self) -> Seq<Seq<char>> {
        texts_of(self.lines@)
    }
}

/// The matcher for the lines, and the pattern lines it had to leave out.
fn build_globs(lines: &Vec<String>) -> (res: (GlobSet, Vec<String>))
    ensures
        set_patterns(res.0) == matcher_patterns(texts_of(lines@)),
        texts_of(res.1@) == rejected_patterns(texts_of(lines@)),
{
    let ghost ls = texts_of(lines@);
    let mut builder = new_builder();
    let mut rejected: Vec<String> = Vec::new();
    let mut i: usize = 0;
    while i < lines.len()
        invariant
            ls == texts_of(lines@),
            i <= lines.len(),
            builder_patterns(builder) == active_patterns(ls.take(i as int)),
            texts_of(rejected@) == rejected_patterns(ls.take(i as int)),
        decreases lines.len() - i,
    {
        proof {
            let t = ls.take(i as int + 1);
            assert(t.drop_last() =~= ls.take(i as int));
            assert(t.last() == lines@[i as int]@);
        }
        let trimmed_line = trim_text(lines[i].as_str());
        let is_pattern = trimmed_line.unicode_len() > 0 && trimmed_line.get_char(0) != '#';
        if is_pattern {
            let added = add_pattern(&mut builder, trimmed_line);
            if !added {
                let copy = trimmed_line.to_owned();
                proof {
                    lemma_texts_of_push(rejected@, copy);
                }
                rejected.push(copy);
            }
        }
        i += 1;
    }
    proof {
        assert(ls.take(i as int) =~= ls);
    }
    let set = match build_set(&builder) {
        Ok(set) => set,
        Err(_) => empty_set(),
    };
    (set, rejected)
}

/// Whether the one pattern, on its own, matches the path.
fn single_pattern_matches(pattern: &str, path: &str) -> (res: bool)
    ensures
        res == single_match(pattern@, path@),
{
    let mut builder = new_builder();
    if !add_pattern(&mut builder, pattern) {
        return false;
    }
    assert(builder_patterns(builder) =~= seq![pattern@]);
    match build_set(&builder) {
        Ok(set) => {
            let m = set_matches(&set, path);
            proof {
                if glob_matches(pattern@, path@) {
                    assert(set_patterns(set)[0] == pattern@);
                }
            }
            m
        },
        Err(_) => false,
    }
}

impl IgnoreList {
    #[verifier::type_invariant]
    spec fn matcher_fits(self) -> bool {
        &&& set_patterns(self.set) == matcher_patterns(self@)
        &&& texts_of(self.rejected@) == rejected_patterns(self@)
    }

    /// The list read from the text of `<project_dir>/.reesyncignore`; `None`
    /// when the file is missing, which yields an empty list (no error).
    /// Invalid glob lines are left out of matching (see `rejected_patterns`).
    pub fn load(text: Option<&str>) -> (res: IgnoreList)
        ensures
            res@ == match text {
                Some(t) => lines_of(t@),
                None => Seq::<Seq<char>>::empty(),
            },
    {
        let lines = match text {
            Some(t) => split_lines(t),
            None => Vec::new(),
        };
        assert(texts_of(Seq::<String>::empty()) =~= Seq::<Seq<char>>::empty());
        let (set, rejected) = build_globs(&lines);
        IgnoreList { lines, set, rejected }
    }

    /// The lines of the list.
    pub fn lines(&self) -> (res: &Vec<String>)
        ensures
            texts_of(res@) == self@,
    {
        &self.lines
    }

    /// The pattern lines that are not valid globs, trimmed; they match nothing.
    pub fn rejected_patterns(&self) -> (res: &Vec<String>)
        ensures
            texts_of(res@) == rejected_patterns(self@),
    {
        proof {
            use_type_invariant(self);
        }
        &self.rejected
    }

    /// Whether `rel_path` (project-root-relative) matches any ignore pattern.
    pub fn is_ignored(&self, rel_path: &str) -> (res: bool)
        ensures
            res == ignored_by(self@, rel_path@),
    {
        proof {
            use_type_invariant(self);
        }
        set_matches(&self.set, rel_path)
    }

    /// Whether `rel_path` is present as an EXACT line (as opposed to matched by a
    /// broader glob). `i` can only toggle exact lines; a glob-matched-but-not-
    /// exact file is reported via `matching_glob` instead.
    pub fn has_exact(&self, rel_path: &str) -> (res: bool)
        ensures
            res == has_exact_line(self@, rel_path@),
    {
        let needle = to_pattern(rel_path);
        let ghost ls = self@;
        let mut i: usize = 0;
        while i < self.lines.len()
            invariant
                ls == texts_of(self.lines@),
                needle@ == slashed(rel_path@),
                i <= self.lines.len(),
                forall|j: int| 0 <= j < i ==> trimmed(#[trigger] ls[j]) != slashed(rel_path@),
            decreases self.lines.len() - i,
        {
            let t = trim_text(self.lines[i].as_str());
            if crate::text::text_eq(t, needle.as_str()) {
                assert(trimmed(ls[i as int]) == slashed(rel_path@));
                return true;
            }
            i += 1;
        }
        false
    }

    /// The first non-exact glob line that matches `rel_path`, if any. Used to
    /// tell the user "ignored by pattern <glob> - edit .reesyncignore".
    /// Each line is matched through a glob set of that one pattern; a line
    /// whose set globset cannot build (its regular expression is over
    /// globset's size limit) is passed over rather than stopping the search.
    pub fn matching_glob(&self, rel_path: &str) -> (res: Option<String>)
        ensures
            match res {
                Some(g) => !has_exact_line(self@, rel_path@) && first_match_from(
                    self@,
                    rel_path@,
                    0,
                ) == Some(g@),
                None => has_exact_line(self@, rel_path@) || first_match_from(self@, rel_path@, 0)
                    is None,
            },
    {
        if self.has_exact(rel_path) {
            return None;
        }
        let ghost ls = self@;
        let mut i: usize = 0;
        while i < self.lines.len()
            invariant
                ls == texts_of(self.lines@),
                i <= self.lines.len(),
                !has_exact_line(ls, rel_path@),
                first_match_from(ls, rel_path@, 0) == first_match_from(ls, rel_path@, i as int),
            decreases self.lines.len() - i,
        {
            let t = trim_text(self.lines[i].as_str());
            if t.unicode_len() > 0 && t.get_char(0) != '#' {
                if single_pattern_matches(t, rel_path) {
                    let g = t.to_owned();
                    assert(first_match_from(ls, rel_path@, i as int) == Some(g@));
                    return Some(g);
                }
            }
            i += 1;
        }
        None
    }

    /// Add an exact-path line for `rel_path`. No-op if already exact. Tells
    /// whether the list changed (and so must be written back).
    pub fn add_exact(&mut self, rel_path: &str) -> (changed: bool)
        ensures
            changed == !has_exact_line(old(self)@, rel_path@),
            final(self)@ == if changed {
                old(self)@.push(slashed(rel_path@))
            } else {
                old(self)@
            },
    {
        if self.has_exact(rel_path) {
            return false;
        }
        let line = to_pattern(rel_path);
        let mut lines = copy_lines(&self.lines);
        proof {
            lemma_texts_of_push(lines@, line);
        }
        lines.push(line);
        let (set, rejected) = build_globs(&lines);
        *self = IgnoreList { lines, set, rejected };
        true
    }

    /// Remove the exact-path line for `rel_path`. No-op if absent. Tells
    /// whether the list changed (and so must be written back).
    pub fn remove_exact(&mut self, rel_path: &str) -> (changed: bool)
        ensures
            changed == has_exact_line(old(self)@, rel_path@),
            final(self)@ == without_exact(old(self)@, rel_path@),
    {
        let needle = to_pattern(rel_path);
        let ghost ls = self@;
        let mut kept: Vec<String> = Vec::new();
        let mut i: usize = 0;
        let mut removed = false;
        while i < self.lines.len()
            invariant
                ls == texts_of(self.lines@),
                needle@ == slashed(rel_path@),
                i <= self.lines.len(),
                texts_of(kept@) == without_exact(ls.take(i as int), rel_path@),
                removed == exists|j: int| 0 <= j < i && trimmed(#[trigger] ls[j]) == slashed(rel_path@),
            decreases self.lines.len() - i,
        {
            let ghost prev = texts_of(kept@);
            proof {
                let t = ls.take(i as int + 1);
                assert(t.drop_last() =~= ls.take(i as int));
                assert(t.last() == ls[i as int]);
                assert(without_exact(t, rel_path@) == if trimmed(ls[i as int]) != slashed(rel_path@) {
                    without_exact(ls.take(i as int), rel_path@).push(ls[i as int])
                } else {
                    without_exact(ls.take(i as int), rel_path@)
                }) by {
                    reveal_with_fuel(Seq::filter, 1);
                }
            }
            let t = trim_text(self.lines[i].as_str());
            if crate::text::text_eq(t, needle.as_str()) {
                removed = true;
            } else {
                let copy = self.lines[i].clone();
                proof {
                    lemma_texts_of_push(kept@, copy);
                    assert(copy@ == ls[i as int]);
                }
                kept.push(copy);
            }
            i += 1;
        }
        proof {
            assert(ls.take(i as int) =~= ls);
        }
        if !removed {
            assert(without_exact(ls, rel_path@) =~= ls) by {
                lemma_filter_all(ls, |l: Seq<char>| trimmed(l) != slashed(rel_path@));
            }
            return false;
        }
        let (set, rejected) = build_globs(&kept);
        *self = IgnoreList { lines: kept, set, rejected };
        true
    }

    /// Toggle a group of files as one: if every one of them is an exact line,
    /// un-ignore them all; otherwise ignore the ones not ignored yet.
    pub fn toggle_group(&mut self, paths: &Vec<String>)
        ensures
            final(self)@ == group_toggled(old(self)@, texts_of(paths@)),
    {
        let ghost ls = self@;
        let ghost ps = texts_of(paths@);
        let mut all = true;
        let mut i: usize = 0;
        while i < paths.len()
            invariant
                ls == self@,
                ps == texts_of(paths@),
                i <= paths.len(),
                all == forall|j: int| 0 <= j < i ==> has_exact_line(ls, #[trigger] ps[j]),
            decreases paths.len() - i,
        {
            assert(ps[i as int] == paths@[i as int]@);
            if !self.has_exact(paths[i].as_str()) {
                all = false;
            }
            i += 1;
        }
        let mut i: usize = 0;
        while i < paths.len()
            invariant
                ps == texts_of(paths@),
                i <= paths.len(),
                all == all_exact(ls, ps),
                self@ == if all {
                    removed_all(ls, ps.take(i as int))
                } else {
                    added_all(ls, ps.take(i as int))
                },
            decreases paths.len() - i,
        {
            proof {
                let t = ps.take(i as int + 1);
                assert(t.drop_last() =~= ps.take(i as int));
                assert(t.last() == ps[i as int]);
            }
            if all {
                self.remove_exact(paths[i].as_str());
            } else if !self.has_exact(paths[i].as_str()) {
                self.add_exact(paths[i].as_str());
            }
            i += 1;
        }
        proof {
            assert(ps.take(i as int) =~= ps);
        }
    }

    /// The text to write to `.reesyncignore`: every line followed by `\n`;
    /// `None` when no line holds more than whitespace (the file is removed).
    pub fn contents(&self) -> (res: Option<String>)
        ensures
            match res {
                Some(t) => has_content(self@) && t@ == joined_lines(self@),
                None => !has_content(self@),
            },
    {
        let ghost ls = self@;
        let mut body = String::new();
        let mut any = false;
        let mut i: usize = 0;
        proof {
            reveal_strlit("\n");
            assert("\n"@ =~= seq!['\n']);
        }
        while i < self.lines.len()
            invariant
                ls == texts_of(self.lines@),
                "\n"@ == seq!['\n'],
                i <= self.lines.len(),
                body@ == joined_lines(ls.take(i as int)),
                any == exists|j: int| 0 <= j < i && trimmed(#[trigger] ls[j]).len() > 0,
            decreases self.lines.len() - i,
        {
            proof {
                let t = ls.take(i as int + 1);
                assert(t.drop_last() =~= ls.take(i as int));
                assert(t.last() == ls[i as int]);
            }
            if trim_text(self.lines[i].as_str()).unicode_len() > 0 {
                any = true;
            }
            body.append(self.lines[i].as_str());
            body.append("\n");
            i += 1;
        }
        proof {
            assert(ls.take(i as int) =~= ls);
        }
        if any {
            Some(body)
        } else {
            None
        }
    }
}

/// A copy of a list of lines.
fn copy_lines(lines: &Vec<String>) -> (res: Vec<String>)
    ensures
        texts_of(res@) == texts_of(lines@),
{
    let mut out: Vec<String> = Vec::new();
    let mut i: usize = 0;
    while i < lines.len()
        invariant
            i <= lines.len(),
            texts_of(out@) == texts_of(lines@).take(i as int),
        decreases lines.len() - i,
    {
        let copy = lines[i].clone();
        proof {
            lemma_texts_of_push(out@, copy);
            assert(texts_of(lines@).take(i as int + 1) =~= texts_of(lines@).take(i as int).push(copy@));
        }
        out.push(copy);
        i += 1;
    }
    assert(texts_of(lines@).take(i as int) =~= texts_of(lines@));
    out
}

proof fn lemma_filter_all(s: Seq<Seq<char>>, pred: spec_fn(Seq<char>) -> bool)
    requires
        forall|j: int| 0 <= j < s.len() ==> pred(#[trigger] s[j]),
    ensures
        s.filter(pred) == s,
    decreases s.len(),
{
    reveal_with_fuel(Seq::filter, 1);
    if s.len() > 0 {
        lemma_filter_all(s.drop_last(), pred);
        assert(s.drop_last().push(s.last()) =~= s);
    } else {
        assert(s.filter(pred) =~= s);
    }
}

// ------------------------------------------------------------------------
// Laws of the list
// ------------------------------------------------------------------------

proof fn lemma_line_pieces_last(t: Seq<char>)
    requires
        t.len() > 0,
    ensures
        line_pieces(t).len() > 0,
        line_pieces(t).last().len() > 0,
        line_pieces(t).last().last() == t.last(),
    decreases t.len(),
{
    if t.len() > 1 {
        lemma_line_pieces_last(t.drop_last());
    }
}

proof fn lemma_line_pieces_empty(t: Seq<char>)
    ensures
        line_pieces(t).len() == 0 <==> t.len() == 0,
{
    if t.len() > 0 {
        lemma_line_pieces_last(t);
    }
}

/// Cutting a text that ends a line, followed by more text, cuts each part.
proof fn lemma_line_pieces_add(a: Seq<char>, b: Seq<char>)
    requires
        a.len() == 0 || a.last() == '\n',
    ensures
        line_pieces(a + b) == line_pieces(a) + line_pieces(b),
    decreases b.len(),
{
    if b.len() == 0 {
        assert(a + b =~= a);
        assert(line_pieces(a) + line_pieces(b) =~= line_pieces(a));
    } else {
        let b1 = b.drop_last();
        lemma_line_pieces_add(a, b1);
        assert((a + b).drop_last() =~= a + b1);
        assert((a + b).last() == b.last());
        lemma_line_pieces_empty(a);
        lemma_line_pieces_empty(b1);
        if a.len() > 0 {
            lemma_line_pieces_last(a);
        }
        let r = line_pieces(a) + line_pieces(b1);
        if b1.len() == 0 {
            assert(line_pieces(b1) =~= Seq::<Seq<char>>::empty());
            assert(r =~= line_pieces(a));
            assert(line_pieces(a + b) =~= line_pieces(a) + line_pieces(b));
        } else {
            assert(r.last() == line_pieces(b1).last());
            assert(line_pieces(a + b) =~= line_pieces(a) + line_pieces(b));
        }
    }
}

proof fn lemma_line_pieces_no_newline(l: Seq<char>)
    requires
        l.len() > 0,
        forall|i: int| 0 <= i < l.len() ==> l[i] != '\n',
    ensures
        line_pieces(l) == seq![l],
    decreases l.len(),
{
    let r = line_pieces(l.drop_last());
    if l.len() == 1 {
        assert(l.drop_last() =~= Seq::<char>::empty());
        assert(r.len() == 0);
        assert(seq![l.last()] =~= l);
        assert(r.push(seq![l.last()]) =~= seq![l]);
    } else {
        lemma_line_pieces_no_newline(l.drop_last());
        assert(r.last().last() == l[l.len() - 2]);
        assert(l.drop_last().push(l.last()) =~= l);
        assert(r.update(r.len() - 1, r.last().push(l.last())) =~= seq![l]);
    }
}

proof fn lemma_line_pieces_line(l: Seq<char>)
    requires
        forall|i: int| 0 <= i < l.len() ==> l[i] != '\n',
    ensures
        line_pieces(l + seq!['\n']) == seq![l + seq!['\n']],
{
    let t = l + seq!['\n'];
    assert(t.drop_last() =~= l);
    assert(t.last() == '\n');
    let r = line_pieces(l);
    if l.len() == 0 {
        assert(r.len() == 0);
        assert(seq!['\n'] =~= t);
        assert(r.push(seq!['\n']) =~= seq![t]);
    } else {
        lemma_line_pieces_no_newline(l);
        assert(r.last().last() == l.last());
        assert(l.push('\n') =~= t);
        assert(r.update(r.len() - 1, r.last().push('\n')) =~= seq![t]);
    }
}

/// A line of the list that can be written and read back unchanged: it holds
/// no line break and does not end with a carriage return.
pub open spec fn writable_line(l: Seq<char>) -> bool {
    &&& forall|i: int| 0 <= i < l.len() ==> l[i] != '\n'
    &&& !(l.len() > 0 && l.last() == '\r')
}

proof fn lemma_active_contains(ls: Seq<Seq<char>>, j: int)
    requires
        0 <= j < ls.len(),
        is_pattern_line(trimmed(ls[j])),
        glob_parses(trimmed(ls[j])),
    ensures
        active_patterns(ls).contains(trimmed(ls[j])),
    decreases ls.len(),
{
    let r = active_patterns(ls.drop_last());
    if j < ls.len() - 1 {
        assert(ls.drop_last()[j] == ls[j]);
        lemma_active_contains(ls.drop_last(), j);
        let k = choose|k: int| 0 <= k < r.len() && r[k] == trimmed(ls[j]);
        if is_pattern_line(trimmed(ls.last())) && glob_parses(trimmed(ls.last())) {
            assert(r.push(trimmed(ls.last()))[k] == trimmed(ls[j]));
        }
    } else {
        assert(r.push(trimmed(ls.last()))[r.len() as int] == trimmed(ls[j]));
    }
}

proof fn lemma_first_match_line(ls: Seq<Seq<char>>, path: Seq<char>, i: int)
    requires
        first_match_from(ls, path, i) is Some,
    ensures
        exists|j: int|
            0 <= j < ls.len() && is_pattern_line(#[trigger] trimmed(ls[j])) && glob_parses(
                trimmed(ls[j]),
            ) && glob_matches(trimmed(ls[j]), path) && first_match_from(ls, path, i) == Some(
                trimmed(ls[j]),
            ),
    decreases ls.len() - i,
{
    if i >= 0 && i < ls.len() {
        let t = trimmed(ls[i]);
        if !(is_pattern_line(t) && single_match(t, path)) {
            lemma_first_match_line(ls, path, i + 1);
        }
    }
}

/// A path that `matching_glob` reports a pattern for is ignored, as long as
/// globset can build the matcher of all the list's patterns.
pub proof fn law_glob_match_is_ignored(ls: Seq<Seq<char>>, path: Seq<char>)
    requires
        glob_set_builds(active_patterns(ls)),
        first_match_from(ls, path, 0) is Some,
    ensures
        ignored_by(ls, path),
{
    lemma_first_match_line(ls, path, 0);
    let j = choose|j: int|
        0 <= j < ls.len() && is_pattern_line(#[trigger] trimmed(ls[j])) && glob_parses(
            trimmed(ls[j]),
        ) && glob_matches(trimmed(ls[j]), path) && first_match_from(ls, path, 0) == Some(
            trimmed(ls[j]),
        );
    lemma_active_contains(ls, j);
    let m = matcher_patterns(ls);
    let k = choose|k: int| 0 <= k < m.len() && m[k] == trimmed(ls[j]);
    assert(glob_matches(m[k], path));
}

/// Reading back the text written for a list gives the list again, as long as
/// every line can be written.
pub proof fn law_contents_read_back(ls: Seq<Seq<char>>)
    requires
        forall|i: int| 0 <= i < ls.len() ==> writable_line(#[trigger] ls[i]),
    ensures
        lines_of(joined_lines(ls)) == ls,
    decreases ls.len(),
{
    if ls.len() > 0 {
        let rest = ls.drop_last();
        let l = ls.last();
        assert forall|i: int| 0 <= i < rest.len() implies writable_line(#[trigger] rest[i]) by {
            assert(rest[i] == ls[i]);
        }
        assert(writable_line(ls[ls.len() - 1]));
        law_contents_read_back(rest);
        let a = joined_lines(rest);
        if rest.len() > 0 {
            assert(a.last() == '\n');
        }
        assert(joined_lines(ls) =~= a + (l + seq!['\n']));
        lemma_line_pieces_add(a, l + seq!['\n']);
        lemma_line_pieces_line(l);
        assert((l + seq!['\n']).drop_last() =~= l);
        assert(strip_line_end(l + seq!['\n']) == l);
        assert(lines_of(joined_lines(ls)) =~= lines_of(a).push(l));
    }
}

/// Adding a path (without surrounding whitespace) makes it an exact line.
pub proof fn law_add_makes_exact(ls: Seq<Seq<char>>, path: Seq<char>)
    requires
        trimmed(slashed(path)) == slashed(path),
    ensures
        has_exact_line(ls.push(slashed(path)), path),
{
    assert(ls.push(slashed(path))[ls.len() as int] == slashed(path));
}

/// After adding a path the file's text is the old text followed by the
/// path's line, and the file is not removed (when the path holds more than
/// whitespace).
pub proof fn law_add_appends_line(ls: Seq<Seq<char>>, path: Seq<char>)
    requires
        trimmed(slashed(path)).len() > 0,
    ensures
        joined_lines(ls.push(slashed(path))) == joined_lines(ls) + slashed(path) + seq!['\n'],
        has_content(ls.push(slashed(path))),
{
    let l2 = ls.push(slashed(path));
    assert(l2.drop_last() =~= ls);
    assert(trimmed(l2[ls.len() as int]).len() > 0);
}

/// Removing a path leaves no exact line for it.
pub proof fn law_remove_leaves_none(ls: Seq<Seq<char>>, path: Seq<char>)
    ensures
        !has_exact_line(without_exact(ls, path), path),
{
    let pred = |l: Seq<char>| trimmed(l) != slashed(path);
    assert forall|i: int| 0 <= i < without_exact(ls, path).len() implies trimmed(
        #[trigger] without_exact(ls, path)[i],
    ) != slashed(path) by {
        ls.lemma_filter_pred(pred, i);
    }
}

/// Adding a path that was not an exact line, then removing it, gives back
/// the list (for a path without surrounding whitespace).
pub proof fn law_add_then_remove(ls: Seq<Seq<char>>, path: Seq<char>)
    requires
        !has_exact_line(ls, path),
        trimmed(slashed(path)) == slashed(path),
    ensures
        without_exact(ls.push(slashed(path)), path) == ls,
{
    let pred = |l: Seq<char>| trimmed(l) != slashed(path);
    let t = ls.push(slashed(path));
    assert(t.drop_last() =~= ls);
    assert(without_exact(t, path) == without_exact(ls, path)) by {
        reveal_with_fuel(Seq::filter, 1);
    }
    lemma_filter_all(ls, pred);
}

} // verus!
