//! Extraction of filesystem-looking paths from free text, keeping only the
//! deepest path of each chain of ancestors.
use vstd::prelude::*;

use crate::aggregate::copy_string;
use crate::pattern::{
    captures, compile_pattern, groups_of_matches, options_view, regex_captures, regex_compiles,
};
use crate::prefix_finder::{lemma_strings_push, strings_view};
use crate::text::{
    chars_of, has_prefix, lemma_lex_less_total, lemma_lex_less_transitive, lex_less, lex_less_exec,
    slice_of, strictly_ascending, string_of,
};

verus! {

/// Unix absolute, `./` or `../` relative, drive-letter and UNC paths, each
/// bounded by the text's edges, white space or quotes.
pub const PATH_PATTERN: &'static str = r#"(?x)
        # Unix absolute paths
        (?:^|[\s"'])(/(?:[^/\s"']+/)*[^/\s"']+)(?:$|[\s"'])
        |
        # Unix relative paths with ./ or ../
        (?:^|[\s"'])(\.\.?/(?:[^/\s"']+/)*[^/\s"']+)(?:$|[\s"'])
        |
        # Windows paths with drive letter
        (?:^|[\s"'])([A-Za-z]:\\(?:[^\\/:*?"<>|\s]+\\)*[^\\/:*?"<>|\s]+)(?:$|[\s"'])
        |
        # UNC paths
        (?:^|[\s"'])(\\\\[^\\/:*?"<>|\s]+\\[^\\/:*?"<>|\s]+(?:\\[^\\/:*?"<>|\s]+)*)(?:$|[\s"'])
    "#;

/// Backslashes turned into forward slashes.
pub open spec fn forward_slashes(s: Seq<char>) -> Seq<char> {
    s.map_values(|c: char| if c == '\\' { '/' } else { c })
}

/// `s` without its trailing forward slashes.
pub open spec fn trim_trailing_slashes(s: Seq<char>) -> Seq<char>
    decreases s.len(),
{
    if s.len() > 0 && s.last() == '/' {
        trim_trailing_slashes(s.drop_last())
    } else {
        s
    }
}

/// A path with forward slashes only and no trailing slash.
pub open spec fn normalized(s: Seq<char>) -> Seq<char> {
    trim_trailing_slashes(forward_slashes(s))
}

/// `sub` names a strict ancestor of `parent`: once both are normalized,
/// `parent` continues `sub` with a separator.
pub open spec fn is_subpath(sub: Seq<char>, parent: Seq<char>) -> bool {
    let ns = normalized(sub);
    let np = normalized(parent);
    ns != np && has_prefix(np, ns) && np.len() > ns.len() && (np[ns.len() as int] == '/'
        || np[ns.len() as int] == '\\')
}

/// The first position from `i` on whose entry `x` precedes, else the end.
pub open spec fn lex_insert_pos(s: Seq<Seq<char>>, x: Seq<char>, i: int) -> int
    decreases s.len() - i,
{
    if i < 0 || i >= s.len() {
        s.len() as int
    } else if lex_less(x, s[i]) {
        i
    } else {
        lex_insert_pos(s, x, i + 1)
    }
}

/// `s` in ascending order (insertion sort).
pub open spec fn sorted_lex(s: Seq<Seq<char>>) -> Seq<Seq<char>>
    decreases s.len(),
{
    if s.len() == 0 {
        Seq::empty()
    } else {
        let r = sorted_lex(s.drop_last());
        r.insert(lex_insert_pos(r, s.last(), 0), s.last())
    }
}

/// Some path of `ps` lies below `p`.
pub open spec fn has_descendant(p: Seq<char>, ps: Seq<Seq<char>>) -> bool {
    exists|j: int| 0 <= j < ps.len() && is_subpath(p, ps[j])
}

/// Of the first `n` paths, those with no descendant in `ps`, each once.
pub open spec fn outermost(ps: Seq<Seq<char>>, n: int) -> Seq<Seq<char>>
    decreases n,
{
    if n <= 0 {
        Seq::empty()
    } else {
        let r = outermost(ps, n - 1);
        let x = ps[n - 1];
        if !has_descendant(x, ps) && !ps.subrange(0, n - 1).contains(x) {
            r.push(x)
        } else {
            r
        }
    }
}

/// The paths that are no strict ancestor of another, each once, sorted.
pub open spec fn deduplicated(ps: Seq<Seq<char>>) -> Seq<Seq<char>> {
    sorted_lex(outermost(ps, ps.len() as int))
}

pub open spec fn strip_cr(s: Seq<char>) -> Seq<char> {
    if s.len() > 0 && s.last() == '\r' {
        s.drop_last()
    } else {
        s
    }
}

/// The lines of `t`, scanning from `i` with the current line begun at `s`:
/// split at `\n`, a `\r` before it dropped, no empty line after a final `\n`.
pub open spec fn lines_from(t: Seq<char>, s: int, i: int) -> Seq<Seq<char>>
    decreases t.len() - i,
{
    if i < 0 || i >= t.len() {
        if 0 <= s < t.len() {
            seq![t.subrange(s, t.len() as int)]
        } else {
            Seq::empty()
        }
    } else if t[i] == '\n' {
        seq![strip_cr(t.subrange(s, i))] + lines_from(t, i + 1, i + 1)
    } else {
        lines_from(t, s, i + 1)
    }
}

/// The non-empty texts of groups `1..n` of one match that took part in it,
/// in order; group 0, the whole match, is not a path.
pub open spec fn group_paths(groups: Seq<Option<Seq<char>>>, n: int) -> Seq<Seq<char>>
    decreases n,
{
    if n <= 1 {
        Seq::empty()
    } else {
        let r = group_paths(groups, n - 1);
        match groups[n - 1] {
            Some(t) => if t.len() > 0 {
                r.push(t)
            } else {
                r
            },
            None => r,
        }
    }
}

/// The paths of every match, match by match.
pub open spec fn match_paths(ms: Seq<Seq<Option<Seq<char>>>>) -> Seq<Seq<char>>
    decreases ms.len(),
{
    if ms.len() == 0 {
        Seq::empty()
    } else {
        match_paths(ms.drop_last()) + group_paths(ms.last(), ms.last().len() as int)
    }
}

/// The paths that the pattern's matches yield, line after line.
pub open spec fn captured_in(pattern: Seq<char>, lines: Seq<Seq<char>>) -> Seq<Seq<char>>
    decreases lines.len(),
{
    if lines.len() == 0 {
        Seq::empty()
    } else {
        captured_in(pattern, lines.drop_last()) + match_paths(
            regex_captures(pattern, lines.last()),
        )
    }
}

/// The paths found in a text, deduplicated as `deduplicated` says.
pub open spec fn extracted_paths(t: Seq<char>) -> Seq<Seq<char>> {
    if regex_compiles(PATH_PATTERN@) {
        deduplicated(captured_in(PATH_PATTERN@, lines_from(t, 0, 0)))
    } else {
        Seq::empty()
    }
}

/// The path with backslashes turned into slashes and trailing slashes removed.
pub fn normalize_path(path: &str) -> (r: String)
    ensures
        r@ == normalized(path@),
{
    let pc = chars_of(path);
    let mut conv: Vec<char> = Vec::new();
    let mut i: usize = 0;
    while i < pc.len()
        invariant
            pc@ == path@,
            i <= pc@.len(),
            conv@ == forward_slashes(pc@.subrange(0, i as int)),
        decreases pc.len() - i,
    {
        let c = pc[i];
        conv.push(if c == '\\' { '/' } else { c });
        i += 1;
        assert(conv@ =~= forward_slashes(pc@.subrange(0, i as int)));
    }
    assert(pc@.subrange(0, i as int) =~= pc@);
    let ghost full = conv@;
    assert(full.subrange(0, full.len() as int) =~= full);
    while conv.len() > 0 && conv[conv.len() - 1] == '/'
        invariant
            conv@.len() <= full.len(),
            conv@ == full.subrange(0, conv@.len() as int),
            trim_trailing_slashes(conv@) == trim_trailing_slashes(full),
        decreases conv.len(),
    {
        let ghost before = conv@;
        conv.pop();
        assert(conv@ =~= before.drop_last());
        assert(conv@ =~= full.subrange(0, conv@.len() as int));
    }
    string_of(&conv)
}

/// Is `potential_sub` a strict ancestor of `parent`.
pub fn is_subpath_of(potential_sub: &str, parent: &str) -> (r: bool)
    ensures
        r == is_subpath(potential_sub@, parent@),
{
    let ns = normalize_path(potential_sub);
    let np = normalize_path(parent);
    let sc = chars_of(ns.as_str());
    let pc = chars_of(np.as_str());
    if ns == np {
        return false;
    }
    if crate::text::starts_with_chars(&pc, &sc) && pc.len() > sc.len() {
        let c = pc[sc.len()];
        return c == '/' || c == '\\';
    }
    false
}

fn lex_position(r: &Vec<String>, x: &String) -> (p: usize)
    ensures
        p as int == lex_insert_pos(strings_view(r@), x@, 0),
        p <= r@.len(),
{
    let ghost rv = strings_view(r@);
    let xc = chars_of(x.as_str());
    let mut i: usize = 0;
    while i < r.len()
        invariant
            rv == strings_view(r@),
            xc@ == x@,
            i <= r@.len(),
            lex_insert_pos(rv, x@, 0) == lex_insert_pos(rv, x@, i as int),
        decreases r.len() - i,
    {
        let rc = chars_of(r[i].as_str());
        assert(rv[i as int] == r@[i as int]@);
        if lex_less_exec(&xc, &rc) {
            return i;
        }
        i += 1;
    }
    i
}

fn sort_paths(v: &Vec<String>) -> (r: Vec<String>)
    ensures
        strings_view(r@) == sorted_lex(strings_view(v@)),
{
    let ghost vv = strings_view(v@);
    let mut r: Vec<String> = Vec::new();
    let mut i: usize = 0;
    assert(vv.subrange(0, 0) =~= Seq::<Seq<char>>::empty());
    while i < v.len()
        invariant
            vv == strings_view(v@),
            i <= v@.len(),
            strings_view(r@) == sorted_lex(vv.subrange(0, i as int)),
        decreases v.len() - i,
    {
        assert(vv.subrange(0, i + 1).drop_last() =~= vv.subrange(0, i as int));
        let x = copy_string(&v[i]);
        let p = lex_position(&r, &x);
        assert(strings_view(r@.insert(p as int, x)) =~= strings_view(r@).insert(p as int, x@));
        r.insert(p, x);
        i += 1;
    }
    assert(vv.subrange(0, i as int) =~= vv);
    r
}

fn has_descendant_exec(p: &String, paths: &Vec<String>) -> (r: bool)
    ensures
        r == has_descendant(p@, strings_view(paths@)),
{
    let ghost pv = strings_view(paths@);
    let mut j: usize = 0;
    while j < paths.len()
        invariant
            pv == strings_view(paths@),
            j <= paths@.len(),
            forall|m: int| 0 <= m < j ==> !is_subpath(p@, pv[m]),
        decreases paths.len() - j,
    {
        assert(pv[j as int] == paths@[j as int]@);
        if is_subpath_of(p.as_str(), paths[j].as_str()) {
            return true;
        }
        j += 1;
    }
    false
}

fn seen_before(paths: &Vec<String>, i: usize) -> (r: bool)
    requires
        i < paths@.len(),
    ensures
        r == strings_view(paths@).subrange(0, i as int).contains(paths@[i as int]@),
{
    let ghost pv = strings_view(paths@);
    let mut j: usize = 0;
    while j < i
        invariant
            pv == strings_view(paths@),
            i < paths@.len(),
            j <= i,
            forall|m: int| 0 <= m < j ==> pv[m] != paths@[i as int]@,
        decreases i - j,
    {
        if paths[j] == paths[i] {
            assert(pv.subrange(0, i as int)[j as int] == paths@[i as int]@);
            return true;
        }
        j += 1;
    }
    assert(!pv.subrange(0, i as int).contains(paths@[i as int]@)) by {
        assert forall|m: int| 0 <= m < i implies pv.subrange(0, i as int)[m] != paths@[
            i as int
        ]@ by {
            assert(pv.subrange(0, i as int)[m] == pv[m]);
        }
    }
    false
}

/// Keeps each path that is no strict ancestor of another path of the list,
/// once, and returns them sorted.
pub fn deduplicate_paths(paths: Vec<String>) -> (r: Vec<String>)
    ensures
        strings_view(r@) == deduplicated(strings_view(paths@)),
{
    let ghost pv = strings_view(paths@);
    let mut kept: Vec<String> = Vec::new();
    let mut i: usize = 0;
    while i < paths.len()
        invariant
            pv == strings_view(paths@),
            i <= paths@.len(),
            strings_view(kept@) == outermost(pv, i as int),
        decreases paths.len() - i,
    {
        assert(pv[i as int] == paths@[i as int]@);
        if !has_descendant_exec(&paths[i], &paths) && !seen_before(&paths, i) {
            let x = copy_string(&paths[i]);
            proof {
                lemma_strings_push(kept@, x);
            }
            kept.push(x);
        }
        i += 1;
    }
    sort_paths(&kept)
}

/// The lines of a text, as `lines_from` describes them.
pub fn text_lines(text: &str) -> (r: Vec<String>)
    ensures
        strings_view(r@) == lines_from(text@, 0, 0),
{
    let tc = chars_of(text);
    let n = tc.len();
    let mut out: Vec<String> = Vec::new();
    let mut cur: Vec<char> = Vec::new();
    let mut s: usize = 0;
    let mut i: usize = 0;
    assert(strings_view(out@) + lines_from(text@, 0, 0) =~= lines_from(text@, 0, 0));
    assert(cur@ =~= text@.subrange(0, 0));
    while i < n
        invariant
            tc@ == text@,
            n == tc@.len(),
            s <= i <= n,
            cur@ == text@.subrange(s as int, i as int),
            strings_view(out@) + lines_from(text@, s as int, i as int) == lines_from(text@, 0, 0),
        decreases n - i,
    {
        let c = tc[i];
        if c == '\n' {
            let ghost whole = cur@;
            if cur.len() > 0 && cur[cur.len() - 1] == '\r' {
                cur.pop();
            }
            assert(cur@ == strip_cr(whole)) by {
                if whole.len() > 0 && whole.last() == '\r' {
                    assert(cur@ =~= whole.drop_last());
                }
            }
            let line = string_of(&cur);
            proof {
                lemma_strings_push(out@, line);
                assert(strings_view(out@).push(line@) + lines_from(text@, i + 1, i + 1)
                    =~= strings_view(out@) + lines_from(text@, s as int, i as int));
            }
            out.push(line);
            cur = Vec::new();
            s = i + 1;
            assert(cur@ =~= text@.subrange(s as int, i + 1));
        } else {
            cur.push(c);
            assert(cur@ =~= text@.subrange(s as int, i + 1));
        }
        i += 1;
    }
    if s < n {
        let line = string_of(&cur);
        proof {
            lemma_strings_push(out@, line);
            assert(strings_view(out@).push(line@) =~= strings_view(out@) + lines_from(
                text@,
                s as int,
                i as int,
            ));
        }
        out.push(line);
    } else {
        assert(strings_view(out@) =~= strings_view(out@) + lines_from(text@, s as int, i as int));
    }
    out
}

fn push_group_paths(out: &mut Vec<String>, groups: &Vec<Option<String>>)
    ensures
        strings_view(final(out)@) == strings_view(old(out)@) + group_paths(
            options_view(groups@),
            groups@.len() as int,
        ),
{
    let ghost start = strings_view(out@);
    let ghost gv = options_view(groups@);
    assert(start =~= start + group_paths(gv, 1));
    let mut j: usize = 1;
    while j < groups.len()
        invariant
            gv == options_view(groups@),
            1 <= j,
            j <= groups@.len() || j == 1,
            strings_view(out@) == start + group_paths(gv, j as int),
        decreases groups.len() - j,
    {
        assert(gv[j as int] == match groups@[j as int] {
            Some(s) => Some(s@),
            None => None::<Seq<char>>,
        });
        match &groups[j] {
            Some(t) => {
                if t.as_str().unicode_len() > 0 {
                    let x = copy_string(t);
                    proof {
                        lemma_strings_push(out@, x);
                    }
                    out.push(x);
                    assert(strings_view(out@) =~= start + group_paths(gv, j + 1));
                } else {
                    assert(strings_view(out@) =~= start + group_paths(gv, j + 1));
                }
            },
            None => {
                assert(strings_view(out@) =~= start + group_paths(gv, j + 1));
            },
        }
        j += 1;
    }
    proof {
        if groups@.len() <= 1 {
            assert(group_paths(gv, groups@.len() as int) == group_paths(gv, 1));
        }
    }
}

fn push_match_paths(out: &mut Vec<String>, ms: &Vec<Vec<Option<String>>>)
    ensures
        strings_view(final(out)@) == strings_view(old(out)@) + match_paths(groups_of_matches(ms@)),
{
    let ghost start = strings_view(out@);
    let ghost mv = groups_of_matches(ms@);
    let mut i: usize = 0;
    assert(start =~= start + match_paths(mv.subrange(0, 0)));
    while i < ms.len()
        invariant
            mv == groups_of_matches(ms@),
            i <= ms@.len(),
            strings_view(out@) == start + match_paths(mv.subrange(0, i as int)),
        decreases ms.len() - i,
    {
        assert(mv.subrange(0, i + 1).drop_last() =~= mv.subrange(0, i as int));
        assert(mv[i as int] == options_view(ms@[i as int]@));
        push_group_paths(out, &ms[i]);
        assert(strings_view(out@) =~= start + match_paths(mv.subrange(0, i + 1)));
        i += 1;
    }
    assert(mv.subrange(0, i as int) =~= mv);
}

/// The paths that `PATH_PATTERN` finds in the text, line by line, with every
/// strict ancestor of another found path left out, sorted.
pub fn extract_paths_from_text(text: &str) -> (r: Vec<String>)
    ensures
        strings_view(r@) == extracted_paths(text@),
{
    let compiled = match compile_pattern(PATH_PATTERN) {
        Some(c) => c,
        None => {
            let e: Vec<String> = Vec::new();
            assert(strings_view(e@) =~= Seq::<Seq<char>>::empty());
            return e;
        },
    };
    let lines = text_lines(text);
    let ghost lv = strings_view(lines@);
    let mut found: Vec<String> = Vec::new();
    let mut i: usize = 0;
    assert(strings_view(found@) =~= captured_in(PATH_PATTERN@, lv.subrange(0, 0)));
    while i < lines.len()
        invariant
            lv == strings_view(lines@),
            compiled.source() == PATH_PATTERN@,
            i <= lines@.len(),
            strings_view(found@) == captured_in(PATH_PATTERN@, lv.subrange(0, i as int)),
        decreases lines.len() - i,
    {
        assert(lv.subrange(0, i + 1).drop_last() =~= lv.subrange(0, i as int));
        assert(lv[i as int] == lines@[i as int]@);
        let ms = captures(&compiled, lines[i].as_str());
        push_match_paths(&mut found, &ms);
        i += 1;
    }
    assert(lv.subrange(0, i as int) =~= lv);
    deduplicate_paths(found)
}


proof fn lemma_lex_insert_pos_bounds(s: Seq<Seq<char>>, x: Seq<char>, i: int)
    requires
        0 <= i <= s.len(),
    ensures
        i <= lex_insert_pos(s, x, i) <= s.len(),
        forall|m: int| i <= m < lex_insert_pos(s, x, i) ==> !lex_less(x, #[trigger] s[m]),
        lex_insert_pos(s, x, i) < s.len() ==> lex_less(x, s[lex_insert_pos(s, x, i)]),
    decreases s.len() - i,
{
    if i < s.len() && !lex_less(x, s[i]) {
        lemma_lex_insert_pos_bounds(s, x, i + 1);
    }
}

proof fn lemma_sorted_lex_members(s: Seq<Seq<char>>)
    ensures
        sorted_lex(s).len() == s.len(),
        forall|j: int| 0 <= j < sorted_lex(s).len() ==> s.contains(#[trigger] sorted_lex(s)[j]),
    decreases s.len(),
{
    if s.len() > 0 {
        let init = s.drop_last();
        lemma_sorted_lex_members(init);
        let r = sorted_lex(init);
        let p = lex_insert_pos(r, s.last(), 0);
        lemma_lex_insert_pos_bounds(r, s.last(), 0);
        let t = r.insert(p, s.last());
        assert forall|j: int| 0 <= j < t.len() implies s.contains(#[trigger] t[j]) by {
            if j == p {
                assert(t[j] == s[s.len() - 1]);
            } else {
                let jj = if j < p {
                    j
                } else {
                    j - 1
                };
                assert(t[j] == r[jj]);
                let m = choose|m: int| 0 <= m < init.len() && init[m] == r[jj];
                assert(s[m] == init[m]);
            }
        }
    }
}

/// Sorting paths that are all different gives them in strictly ascending
/// order.
pub proof fn lemma_sorted_lex_ascending(s: Seq<Seq<char>>)
    requires
        s.no_duplicates(),
    ensures
        strictly_ascending(sorted_lex(s)),
    decreases s.len(),
{
    if s.len() > 0 {
        let init = s.drop_last();
        let x = s.last();
        assert(init.no_duplicates());
        lemma_sorted_lex_ascending(init);
        lemma_sorted_lex_members(init);
        let r = sorted_lex(init);
        let p = lex_insert_pos(r, x, 0);
        lemma_lex_insert_pos_bounds(r, x, 0);
        assert forall|m: int| 0 <= m < r.len() implies #[trigger] r[m] != x by {
            assert(init.contains(r[m]));
            let k = choose|k: int| 0 <= k < init.len() && init[k] == r[m];
            assert(s[k] == init[k]);
        }
        assert forall|m: int| 0 <= m < p implies lex_less(#[trigger] r[m], x) by {
            assert(r[m] != x);
            lemma_lex_less_total(r[m], x);
        }
        assert forall|m: int| p <= m < r.len() implies lex_less(x, #[trigger] r[m]) by {
            if m > p {
                assert(lex_less(r[p], r[m]));
                lemma_lex_less_transitive(x, r[p], r[m]);
            }
        }
        let t = r.insert(p, x);
        assert forall|a: int, b: int| 0 <= a < b < t.len() implies lex_less(
            #[trigger] t[a],
            #[trigger] t[b],
        ) by {
            if b < p {
                assert(t[a] == r[a] && t[b] == r[b]);
            } else if b == p {
                assert(t[a] == r[a] && t[b] == x);
            } else if a < p {
                assert(t[a] == r[a] && t[b] == r[b - 1]);
            } else if a == p {
                assert(t[a] == x && t[b] == r[b - 1]);
            } else {
                assert(t[a] == r[a - 1] && t[b] == r[b - 1]);
            }
        }
    }
}

proof fn lemma_outermost_distinct(ps: Seq<Seq<char>>, n: int)
    requires
        0 <= n <= ps.len(),
    ensures
        outermost(ps, n).no_duplicates(),
        forall|j: int|
            0 <= j < outermost(ps, n).len() ==> ps.subrange(0, n).contains(
                #[trigger] outermost(ps, n)[j],
            ),
    decreases n,
{
    if n > 0 {
        lemma_outermost_distinct(ps, n - 1);
        let r = outermost(ps, n - 1);
        let x = ps[n - 1];
        let o = outermost(ps, n);
        assert forall|j: int| 0 <= j < o.len() implies ps.subrange(0, n).contains(#[trigger] o[j]) by {
            if j < r.len() {
                assert(o[j] == r[j]);
                let pre = ps.subrange(0, n - 1);
                let k = choose|k: int| 0 <= k < pre.len() && #[trigger] pre[k] == r[j];
                assert(ps.subrange(0, n)[k] == r[j]);
            } else {
                assert(o[j] == x);
                assert(ps.subrange(0, n)[n - 1] == x);
            }
        }
        if !has_descendant(x, ps) && !ps.subrange(0, n - 1).contains(x) {
            assert forall|a: int, b: int| 0 <= a < o.len() && 0 <= b < o.len() && a != b implies o[a]
                != o[b] by {
                if a == r.len() {
                    assert(ps.subrange(0, n - 1).contains(o[b]));
                } else if b == r.len() {
                    assert(ps.subrange(0, n - 1).contains(o[a]));
                }
            }
        }
    }
}

/// The paths that `deduplicate_paths` returns are in strictly ascending
/// order: sorted, each once.
pub proof fn lemma_deduplicated_ascending(ps: Seq<Seq<char>>)
    ensures
        strictly_ascending(deduplicated(ps)),
{
    lemma_outermost_distinct(ps, ps.len() as int);
    lemma_sorted_lex_ascending(outermost(ps, ps.len() as int));
}

} // verus!
