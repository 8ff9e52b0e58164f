//! Prefix hypotheses for single filenames, the options that steer the search,
//! and the removal of a found prefix from a filename.
use vstd::prelude::*;

use crate::text::{
    chars_of, find_chars, find_from, has_prefix, occurs_at, slice_of, starts_with_chars, trim_start,
    trim_start_of,
};

verus! {

/// What kind of prefix the search looks for.
#[derive(Debug, Clone)]
pub enum PrefixMode {
    /// Only text enclosed in one of the delimiter pairs.
    DelimiterOnly { delimiters: Vec<(String, String)> },
    /// Only the literal prefixes given.
    SpecificPrefixes { prefixes: Vec<String> },
    /// Delimited text and free-form prefixes together.
    DetectAll { delimiters: Vec<(String, String)> },
}

#[derive(Debug, Clone)]
pub struct PrefixOptions {
    pub mode: PrefixMode,
    pub min_occurrences: usize,
    /// Pattern that a decorated prefix must match to be preferred.
    pub filter_regex: Option<String>,
}

/// A prefix shared by several files of one directory.
#[derive(Debug, Clone, PartialEq)]
pub struct CommonPrefix {
    pub prefix: String,
    pub delimiter: Option<(String, String)>,
    pub occurrences: usize,
    pub files: Vec<String>,
}

/// One winning prefix with the full paths of the files that carry it.
#[derive(Debug, Clone, PartialEq)]
pub struct PrefixedPath {
    pub paths: Vec<String>,
    pub prefix: String,
}

/// The mathematical value of a `CommonPrefix`.
pub struct GroupView {
    pub prefix: Seq<char>,
    pub delimiter: Option<(Seq<char>, Seq<char>)>,
    pub occurrences: nat,
    pub files: Seq<Seq<char>>,
}

/// The mathematical value of a `PrefixedPath`.
pub struct PrefixedPathView {
    pub prefix: Seq<char>,
    pub paths: Seq<Seq<char>>,
}

pub open spec fn strings_view(v: Seq<String>) -> Seq<Seq<char>> {
    v.map_values(|s: String| s@)
}

pub open spec fn pairs_view(v: Seq<(String, String)>) -> Seq<(Seq<char>, Seq<char>)> {
    v.map_values(|p: (String, String)| (p.0@, p.1@))
}

pub open spec fn delimiter_view(d: Option<(String, String)>) -> Option<(Seq<char>, Seq<char>)> {
    match d {
        Some(p) => Some((p.0@, p.1@)),
        None => None,
    }
}

impl View for CommonPrefix {
    type V = GroupView;

    open spec fn view(&self) -> GroupView {
        GroupView {
            prefix: self.prefix@,
            delimiter: delimiter_view(self.delimiter),
            occurrences: self.occurrences as nat,
            files: strings_view(self.files@),
        }
    }
}

impl View for PrefixedPath {
    type V = PrefixedPathView;

    open spec fn view(&self) -> PrefixedPathView {
        PrefixedPathView { prefix: self.prefix@, paths: strings_view(self.paths@) }
    }
}

pub open spec fn groups_view(v: Seq<CommonPrefix>) -> Seq<GroupView> {
    v.map_values(|g: CommonPrefix| g@)
}

pub open spec fn prefixed_view(v: Seq<PrefixedPath>) -> Seq<PrefixedPathView> {
    v.map_values(|p: PrefixedPath| p@)
}

/// The delimiter pairs of a mode, empty for `SpecificPrefixes`.
pub open spec fn mode_delimiters(m: PrefixMode) -> Seq<(Seq<char>, Seq<char>)> {
    match m {
        PrefixMode::DelimiterOnly { delimiters } => pairs_view(delimiters@),
        PrefixMode::SpecificPrefixes { .. } => Seq::empty(),
        PrefixMode::DetectAll { delimiters } => pairs_view(delimiters@),
    }
}

/// The five pairs that the default options search: `()`, `[]`, `{}`, `""` and `''`.
pub open spec fn standard_delimiters() -> Seq<(Seq<char>, Seq<char>)> {
    seq![
        (seq!['('], seq![')']),
        (seq!['['], seq![']']),
        (seq!['{'], seq!['}']),
        (seq!['"'], seq!['"']),
        (seq!['\''], seq!['\'']),
    ]
}

/// The pattern `\[.*\]`: a bracket-delimited prefix.
pub open spec fn bracket_pattern() -> Seq<char> {
    seq!['\\', '[', '.', '*', '\\', ']']
}

/// The pattern `\(.*\)`: a parenthesis-delimited prefix.
pub open spec fn paren_pattern() -> Seq<char> {
    seq!['\\', '(', '.', '*', '\\', ')']
}

/// Options that detect everything with the standard pairs, keep prefixes
/// shared by two files, and filter with `filter`.
pub open spec fn is_standard_with_filter(o: PrefixOptions, filter: Option<Seq<char>>) -> bool {
    &&& o.mode is DetectAll
    &&& mode_delimiters(o.mode) == standard_delimiters()
    &&& o.min_occurrences == 2
    &&& match (o.filter_regex, filter) {
        (Some(r), Some(f)) => r@ == f,
        (None, None) => true,
        _ => false,
    }
}

pub(crate) fn owned(s: &str) -> (r: String)
    ensures
        r@ == s@,
{
    String::from_str(s)
}

fn standard_delimiter_list() -> (r: Vec<(String, String)>)
    ensures
        pairs_view(r@) == standard_delimiters(),
{
    proof {
        reveal_strlit("(");
        reveal_strlit(")");
        reveal_strlit("[");
        reveal_strlit("]");
        reveal_strlit("{");
        reveal_strlit("}");
        reveal_strlit("\"");
        reveal_strlit("'");
    }
    let r = vec![
        (owned("("), owned(")")),
        (owned("["), owned("]")),
        (owned("{"), owned("}")),
        (owned("\""), owned("\"")),
        (owned("'"), owned("'")),
    ];
    assert(pairs_view(r@) =~~= standard_delimiters());
    r
}

fn bracket_filter() -> (r: String)
    ensures
        r@ == bracket_pattern(),
{
    proof {
        reveal_strlit("\\[.*\\]");
    }
    let r = owned("\\[.*\\]");
    assert(r@ =~= bracket_pattern());
    r
}

fn paren_filter() -> (r: String)
    ensures
        r@ == paren_pattern(),
{
    proof {
        reveal_strlit("\\(.*\\)");
    }
    let r = owned("\\(.*\\)");
    assert(r@ =~= paren_pattern());
    r
}

impl Default for PrefixOptions {
    fn default() -> (r: Self)
        ensures
            is_standard_with_filter(r, Some(bracket_pattern())),
    {
        PrefixOptions {
            mode: PrefixMode::DetectAll { delimiters: standard_delimiter_list() },
            min_occurrences: 2,
            filter_regex: Some(bracket_filter()),
        }
    }
}

impl PrefixOptions {
    /// The default search with a filter pattern of the caller's.
    pub fn with_regex(regex_pattern: &str) -> (r: Self)
        ensures
            is_standard_with_filter(r, Some(regex_pattern@)),
    {
        PrefixOptions {
            mode: PrefixMode::DetectAll { delimiters: standard_delimiter_list() },
            min_occurrences: 2,
            filter_regex: Some(owned(regex_pattern)),
        }
    }

    /// The default search with no filter: every prefix is accepted.
    pub fn no_filter() -> (r: Self)
        ensures
            is_standard_with_filter(r, None),
    {
        PrefixOptions {
            mode: PrefixMode::DetectAll { delimiters: standard_delimiter_list() },
            min_occurrences: 2,
            filter_regex: None,
        }
    }

    /// The default search, preferring bracket-delimited prefixes.
    pub fn bracket_only() -> (r: Self)
        ensures
            is_standard_with_filter(r, Some(bracket_pattern())),
    {
        PrefixOptions {
            mode: PrefixMode::DetectAll { delimiters: standard_delimiter_list() },
            min_occurrences: 2,
            filter_regex: Some(bracket_filter()),
        }
    }

    /// The default search, preferring parenthesis-delimited prefixes.
    pub fn paren_only() -> (r: Self)
        ensures
            is_standard_with_filter(r, Some(paren_pattern())),
    {
        PrefixOptions {
            mode: PrefixMode::DetectAll { delimiters: standard_delimiter_list() },
            min_occurrences: 2,
            filter_regex: Some(paren_filter()),
        }
    }
}

/// The text between the first `open` and the first `close` after it, when
/// both are present and the text between them is not empty.
pub open spec fn delimited_prefix(f: Seq<char>, open: Seq<char>, close: Seq<char>) -> Option<
    Seq<char>,
> {
    match find_from(f, open, 0) {
        None => None,
        Some(i) => {
            let start = i + open.len();
            match find_from(f, close, start) {
                None => None,
                Some(j) => if j == start {
                    None
                } else {
                    Some(f.subrange(start, j))
                },
            }
        },
    }
}

/// What `find_from` returns lies at or after where the search began, and
/// nothing before it matched.
pub proof fn lemma_find_from(s: Seq<char>, p: Seq<char>, i: int)
    requires
        0 <= i,
    ensures
        match find_from(s, p, i) {
            Some(k) => i <= k && occurs_at(s, p, k) && forall|m: int|
                i <= m < k ==> !occurs_at(s, p, m),
            None => forall|m: int| i <= m ==> !occurs_at(s, p, m),
        },
    decreases s.len() + 1 - i,
{
    if i + p.len() > s.len() {
    } else if occurs_at(s, p, i) {
    } else {
        lemma_find_from(s, p, i + 1);
    }
}

/// The prefix enclosed by `open` and `close` in `filename`, if any.
pub fn extract_prefix_with_delimiter(filename: &str, open: &str, close: &str) -> (r: Option<String>)
    ensures
        match r {
            Some(p) => delimited_prefix(filename@, open@, close@) == Some(p@),
            None => delimited_prefix(filename@, open@, close@) is None,
        },
{
    let fc = chars_of(filename);
    let oc = chars_of(open);
    let cc = chars_of(close);
    let flen = fc.len();
    proof {
        lemma_find_from(filename@, open@, 0);
    }
    match find_chars(&fc, &oc, 0) {
        None => None,
        Some(i) => {
            let start = i + oc.len();
            proof {
                lemma_find_from(filename@, close@, start as int);
            }
            match find_chars(&fc, &cc, start) {
                None => None,
                Some(j) => {
                    if j == start {
                        None
                    } else {
                        Some(slice_of(filename, start, j))
                    }
                },
            }
        },
    }
}

pub open spec fn is_open_delimiter(c: char) -> bool {
    c == '[' || c == '(' || c == '{'
}

/// The text ends in an opening bracket, brace or parenthesis.
pub open spec fn ends_with_open(p: Seq<char>) -> bool {
    p.len() > 0 && is_open_delimiter(p.last())
}

/// The last position before `n` that holds `c`.
pub open spec fn last_index_of(s: Seq<char>, c: char, n: int) -> Option<int>
    decreases n,
{
    if n <= 0 {
        None
    } else if s[n - 1] == c {
        Some(n - 1)
    } else {
        last_index_of(s, c, n - 1)
    }
}

/// The length of the name without its extension (from the last `.` on).
pub open spec fn stem_len(f: Seq<char>) -> int {
    match last_index_of(f, '.', f.len() as int) {
        Some(p) => p,
        None => f.len() as int,
    }
}

/// The prefixes of `f` that end just before a `sep` at a position below `n`,
/// in increasing length; empty ones and those ending in an opening bracket
/// are left out.
pub open spec fn separator_prefixes(f: Seq<char>, sep: char, n: int) -> Seq<Seq<char>>
    decreases n,
{
    if n <= 0 {
        Seq::empty()
    } else {
        let r = separator_prefixes(f, sep, n - 1);
        let j = n - 1;
        if f[j] == sep && j > 0 && !ends_with_open(f.subrange(0, j)) {
            r.push(f.subrange(0, j))
        } else {
            r
        }
    }
}

/// The prefixes of `f` of every length from 2 to `n - 1`, but for those
/// ending in an opening bracket.
pub open spec fn length_prefixes(f: Seq<char>, n: int) -> Seq<Seq<char>>
    decreases n,
{
    if n <= 2 {
        Seq::empty()
    } else {
        let r = length_prefixes(f, n - 1);
        if !ends_with_open(f.subrange(0, n - 1)) {
            r.push(f.subrange(0, n - 1))
        } else {
            r
        }
    }
}

pub open spec fn min_int(a: int, b: int) -> int {
    if a <= b {
        a
    } else {
        b
    }
}

/// The free-form prefix hypotheses for one filename: for each of the
/// separators `_`, `-`, `.` and space the prefixes that end before one of
/// them, then the prefixes of length 2 up to (not including) the smaller of
/// 20 and the length of the name without extension.
pub open spec fn prefix_candidates(f: Seq<char>) -> Seq<Seq<char>> {
    let st = stem_len(f);
    separator_prefixes(f, '_', st) + separator_prefixes(f, '-', st) + separator_prefixes(
        f,
        '.',
        st,
    ) + separator_prefixes(f, ' ', st) + length_prefixes(f, min_int(st, 20))
}

fn stem_length(fc: &Vec<char>) -> (r: usize)
    ensures
        r == stem_len(fc@),
        r <= fc@.len(),
{
    let mut n = fc.len();
    while n > 0
        invariant
            n <= fc@.len(),
            last_index_of(fc@, '.', fc@.len() as int) == last_index_of(fc@, '.', n as int),
        decreases n,
    {
        if fc[n - 1] == '.' {
            return n - 1;
        }
        n -= 1;
    }
    fc.len()
}

fn ends_with_open_chars(fc: &Vec<char>, len: usize) -> (r: bool)
    requires
        len <= fc@.len(),
    ensures
        r == ends_with_open(fc@.subrange(0, len as int)),
{
    len > 0 && (fc[len - 1] == '[' || fc[len - 1] == '(' || fc[len - 1] == '{')
}

/// Viewing a vector after a push is viewing it before, then the new string.
pub proof fn lemma_strings_push(v: Seq<String>, s: String)
    ensures
        strings_view(v.push(s)) == strings_view(v).push(s@),
{
    assert(strings_view(v.push(s)) =~= strings_view(v).push(s@));
}

fn push_separator_prefixes(
    filename: &str,
    fc: &Vec<char>,
    sep: char,
    stem: usize,
    out: &mut Vec<String>,
)
    requires
        fc@ == filename@,
        stem <= fc@.len(),
    ensures
        strings_view(final(out)@) == strings_view(old(out)@) + separator_prefixes(
            filename@,
            sep,
            stem as int,
        ),
{
    let ghost start = strings_view(out@);
    let mut j: usize = 0;
    assert(strings_view(out@) =~= start + separator_prefixes(filename@, sep, 0));
    while j < stem
        invariant
            fc@ == filename@,
            stem <= fc@.len(),
            j <= stem,
            strings_view(out@) == start + separator_prefixes(filename@, sep, j as int),
        decreases stem - j,
    {
        if fc[j] == sep && j > 0 && !ends_with_open_chars(fc, j) {
            let p = slice_of(filename, 0, j);
            proof {
                lemma_strings_push(out@, p);
            }
            out.push(p);
            assert(strings_view(out@) =~= start + separator_prefixes(filename@, sep, j + 1));
        }
        j += 1;
    }
}

fn push_length_prefixes(filename: &str, fc: &Vec<char>, n: usize, out: &mut Vec<String>)
    requires
        fc@ == filename@,
        n <= fc@.len(),
    ensures
        strings_view(final(out)@) == strings_view(old(out)@) + length_prefixes(filename@, n as int),
{
    let ghost start = strings_view(out@);
    assert(strings_view(out@) =~= start + length_prefixes(filename@, 2));
    if n <= 2 {
        return;
    }
    let mut k: usize = 2;
    while k < n
        invariant
            fc@ == filename@,
            2 <= k <= n,
            n <= fc@.len(),
            strings_view(out@) == start + length_prefixes(filename@, k as int),
        decreases n - k,
    {
        if !ends_with_open_chars(fc, k) {
            let p = slice_of(filename, 0, k);
            proof {
                lemma_strings_push(out@, p);
            }
            out.push(p);
        }
        assert(strings_view(out@) =~= start + length_prefixes(filename@, k + 1));
        k += 1;
    }
}

/// The free-form prefix hypotheses of one filename.
pub fn generate_prefix_candidates(filename: &str) -> (r: Vec<String>)
    ensures
        strings_view(r@) == prefix_candidates(filename@),
{
    let fc = chars_of(filename);
    let stem = stem_length(&fc);
    let mut out: Vec<String> = Vec::new();
    push_separator_prefixes(filename, &fc, '_', stem, &mut out);
    push_separator_prefixes(filename, &fc, '-', stem, &mut out);
    push_separator_prefixes(filename, &fc, '.', stem, &mut out);
    push_separator_prefixes(filename, &fc, ' ', stem, &mut out);
    let n = if stem <= 20 {
        stem
    } else {
        20
    };
    push_length_prefixes(filename, &fc, n, &mut out);
    assert(strings_view(out@) =~= prefix_candidates(filename@));
    out
}

/// `f` without the prefix `p` and the white space after it; `f` itself when
/// it does not begin with `p`.
pub open spec fn strip_prefix(f: Seq<char>, p: Seq<char>) -> Seq<char> {
    if has_prefix(f, p) {
        trim_start(f.subrange(p.len() as int, f.len() as int))
    } else {
        f
    }
}

/// A delimited prefix written with its markers.
pub open spec fn decorated(open: Seq<char>, prefix: Seq<char>, close: Seq<char>) -> Seq<char> {
    open + prefix + close
}

/// Removes `prefix` and the white space after it from the start of `filename`.
pub fn remove_prefix(filename: &str, prefix: &str) -> (r: String)
    ensures
        r@ == strip_prefix(filename@, prefix@),
{
    let fc = chars_of(filename);
    let pc = chars_of(prefix);
    if starts_with_chars(&fc, &pc) {
        trim_start_of(filename, pc.len())
    } else {
        owned(filename)
    }
}

pub(crate) fn decorate(open: &str, prefix: &str, close: &str) -> (r: String)
    ensures
        r@ == decorated(open@, prefix@, close@),
{
    let mut d = owned(open);
    d.append(prefix);
    d.append(close);
    d
}

/// Removes `open + prefix + close` and the white space after it from the
/// start of `filename`.
pub fn remove_prefix_with_delimiter(filename: &str, prefix: &str, open: &str, close: &str) -> (r:
    String)
    ensures
        r@ == strip_prefix(filename@, decorated(open@, prefix@, close@)),
{
    let d = decorate(open, prefix, close);
    remove_prefix(filename, d.as_str())
}

/// `s` without its leading spaces and underscores.
pub open spec fn trim_space_underscore(s: Seq<char>) -> Seq<char>
    decreases s.len(),
{
    if s.len() > 0 && (s[0] == ' ' || s[0] == '_') {
        trim_space_underscore(s.drop_first())
    } else {
        s
    }
}

/// `f` without a leading `[prefix]` and the spaces and underscores after it;
/// `f` itself when it does not begin with `[prefix]`.
pub open spec fn strip_bracket_prefix(f: Seq<char>, prefix: Seq<char>) -> Seq<char> {
    let d = decorated(seq!['['], prefix, seq![']']);
    if has_prefix(f, d) {
        trim_space_underscore(f.subrange(d.len() as int, f.len() as int))
    } else {
        f
    }
}

/// Removes a leading `[prefix]`, then spaces and underscores; dashes and dots stay.
pub fn remove_bracket_prefix(filename: &str, prefix: &str) -> (r: String)
    ensures
        r@ == strip_bracket_prefix(filename@, prefix@),
{
    proof {
        reveal_strlit("[");
        reveal_strlit("]");
    }
    let d = decorate("[", prefix, "]");
    assert(d@ =~= decorated(seq!['['], prefix@, seq![']']));
    let fc = chars_of(filename);
    let dc = chars_of(d.as_str());
    if !starts_with_chars(&fc, &dc) {
        return owned(filename);
    }
    let n = fc.len();
    let mut i = dc.len();
    while i < n && (fc[i] == ' ' || fc[i] == '_')
        invariant
            n == fc@.len(),
            fc@ == filename@,
            dc@.len() <= i <= n,
            trim_space_underscore(fc@.subrange(i as int, n as int)) == trim_space_underscore(
                fc@.subrange(dc@.len() as int, n as int),
            ),
        decreases n - i,
    {
        assert(fc@.subrange(i as int, n as int).drop_first() =~= fc@.subrange(i + 1, n as int));
        i += 1;
    }
    slice_of(filename, i, n)
}

/// Splits `f` at the first pair of `pairs`, from index `i` on, whose
/// delimited prefix stands at the very start of `f`.
pub open spec fn split_by_delimiters(
    f: Seq<char>,
    pairs: Seq<(Seq<char>, Seq<char>)>,
    i: int,
) -> Option<(Seq<char>, Seq<char>)>
    decreases pairs.len() - i,
{
    if i < 0 || i >= pairs.len() {
        None
    } else {
        match delimited_prefix(f, pairs[i].0, pairs[i].1) {
            Some(p) => {
                let d = decorated(pairs[i].0, p, pairs[i].1);
                if has_prefix(f, d) {
                    Some((p, trim_start(f.subrange(d.len() as int, f.len() as int))))
                } else {
                    split_by_delimiters(f, pairs, i + 1)
                }
            },
            None => split_by_delimiters(f, pairs, i + 1),
        }
    }
}

/// Splits `f` at the first of `prefixes`, from index `i` on, that begins it.
pub open spec fn split_by_prefixes(f: Seq<char>, prefixes: Seq<Seq<char>>, i: int) -> Option<
    (Seq<char>, Seq<char>),
>
    decreases prefixes.len() - i,
{
    if i < 0 || i >= prefixes.len() {
        None
    } else if has_prefix(f, prefixes[i]) {
        Some((prefixes[i], trim_start(f.subrange(prefixes[i].len() as int, f.len() as int))))
    } else {
        split_by_prefixes(f, prefixes, i + 1)
    }
}

/// The prefix that `options` finds at the start of `f`, and the rest of `f`.
pub open spec fn split_filename(f: Seq<char>, mode: PrefixMode) -> Option<(Seq<char>, Seq<char>)> {
    match mode {
        PrefixMode::SpecificPrefixes { prefixes } => split_by_prefixes(
            f,
            strings_view(prefixes@),
            0,
        ),
        _ => split_by_delimiters(f, mode_delimiters(mode), 0),
    }
}

pub open spec fn split_view(r: Option<(String, String)>) -> Option<(Seq<char>, Seq<char>)> {
    match r {
        Some(p) => Some((p.0@, p.1@)),
        None => None,
    }
}

fn split_delimited(filename: &str, delimiters: &Vec<(String, String)>) -> (r: Option<
    (String, String),
>)
    ensures
        split_view(r) == split_by_delimiters(filename@, pairs_view(delimiters@), 0),
{
    let ghost pv = pairs_view(delimiters@);
    let fc = chars_of(filename);
    let mut i: usize = 0;
    while i < delimiters.len()
        invariant
            pv == pairs_view(delimiters@),
            fc@ == filename@,
            i <= delimiters@.len(),
            split_by_delimiters(filename@, pv, 0) == split_by_delimiters(filename@, pv, i as int),
        decreases delimiters.len() - i,
    {
        let open = delimiters[i].0.as_str();
        let close = delimiters[i].1.as_str();
        assert(pv[i as int] == (open@, close@));
        if let Some(p) = extract_prefix_with_delimiter(filename, open, close) {
            let d = decorate(open, p.as_str(), close);
            let dc = chars_of(d.as_str());
            if starts_with_chars(&fc, &dc) {
                let rest = trim_start_of(filename, dc.len());
                return Some((p, rest));
            }
        }
        i += 1;
    }
    None
}

fn split_specific(filename: &str, prefixes: &Vec<String>) -> (r: Option<(String, String)>)
    ensures
        split_view(r) == split_by_prefixes(filename@, strings_view(prefixes@), 0),
{
    let ghost pv = strings_view(prefixes@);
    let fc = chars_of(filename);
    let mut i: usize = 0;
    while i < prefixes.len()
        invariant
            pv == strings_view(prefixes@),
            fc@ == filename@,
            i <= prefixes@.len(),
            split_by_prefixes(filename@, pv, 0) == split_by_prefixes(filename@, pv, i as int),
        decreases prefixes.len() - i,
    {
        let p = prefixes[i].as_str();
        let pc = chars_of(p);
        if starts_with_chars(&fc, &pc) {
            let rest = trim_start_of(filename, pc.len());
            return Some((owned(p), rest));
        }
        i += 1;
    }
    None
}

/// The prefix at the start of `filename` that `options` recognises, and what
/// remains of the name once it and the white space after it are removed.
/// In `DetectAll` mode only the delimiter pairs are tried.
pub fn extract_prefix_from_filename(filename: &str, options: &PrefixOptions) -> (r: Option<
    (String, String),
>)
    ensures
        split_view(r) == split_filename(filename@, options.mode),
{
    match &options.mode {
        PrefixMode::DelimiterOnly { delimiters } => split_delimited(filename, delimiters),
        PrefixMode::SpecificPrefixes { prefixes } => split_specific(filename, prefixes),
        PrefixMode::DetectAll { delimiters } => split_delimited(filename, delimiters),
    }
}


proof fn lemma_trim_start_idempotent(s: Seq<char>)
    ensures
        trim_start(trim_start(s)) == trim_start(s),
    decreases s.len(),
{
    if s.len() > 0 && crate::text::is_white_space(s[0]) {
        lemma_trim_start_idempotent(s.drop_first());
    }
}

/// Removing a delimited prefix twice gives what removing it once gives,
/// whenever the first removal leaves a name that no longer begins with the
/// decorated prefix (always so when the decorated prefix is empty).
pub proof fn lemma_delimited_removal_idempotent(
    f: Seq<char>,
    prefix: Seq<char>,
    open: Seq<char>,
    close: Seq<char>,
)
    requires
        decorated(open, prefix, close).len() == 0 || !has_prefix(
            strip_prefix(f, decorated(open, prefix, close)),
            decorated(open, prefix, close),
        ),
    ensures
        strip_prefix(strip_prefix(f, decorated(open, prefix, close)), decorated(open, prefix, close))
            == strip_prefix(f, decorated(open, prefix, close)),
{
    let d = decorated(open, prefix, close);
    let once = strip_prefix(f, d);
    if d.len() == 0 {
        assert(f.subrange(0, 0) =~= d);
        assert(f.subrange(0, f.len() as int) =~= f);
        assert(once.subrange(0, 0) =~= d);
        assert(once.subrange(0, once.len() as int) =~= once);
        lemma_trim_start_idempotent(f);
    }
}


/// The name `filename` takes once a leading `[prefix]` is removed; `None`
/// when removing it would leave the name as it is.
pub fn bracket_rename_target(filename: &str, prefix: &str) -> (r: Option<String>)
    ensures
        match r {
            Some(n) => n@ == strip_bracket_prefix(filename@, prefix@) && n@ != filename@,
            None => strip_bracket_prefix(filename@, prefix@) == filename@,
        },
{
    let n = remove_bracket_prefix(filename, prefix);
    let f = owned(filename);
    if n == f {
        None
    } else {
        Some(n)
    }
}


/// Removing a leading `[prefix]` twice gives what removing it once gives,
/// whenever the first removal leaves a name that no longer begins with
/// `[prefix]`.
pub proof fn lemma_bracket_removal_idempotent(f: Seq<char>, prefix: Seq<char>)
    requires
        !has_prefix(
            strip_bracket_prefix(f, prefix),
            decorated(seq!['['], prefix, seq![']']),
        ),
    ensures
        strip_bracket_prefix(strip_bracket_prefix(f, prefix), prefix) == strip_bracket_prefix(
            f,
            prefix,
        ),
{
}

} // verus!
