//! Aggregation of prefix hypotheses over the files of one directory: grouping
//! by key, thresholds, precedence of delimited groups, removal of redundant
//! free-form groups, and a reproducible order.
use vstd::prelude::*;

use crate::prefix_finder::{
    lemma_strings_push, delimited_prefix, extract_prefix_with_delimiter, generate_prefix_candidates, groups_view,
    mode_delimiters, pairs_view, prefix_candidates, strings_view, CommonPrefix, GroupView,
    PrefixMode, PrefixOptions,
};
use crate::text::{
    chars_of, has_prefix, lemma_lex_less_asymmetric, lemma_lex_less_irreflexive, lex_less,
    starts_with_chars, strictly_ascending,
};

verus! {

pub open spec fn same_key(g: GroupView, p: Seq<char>, d: Option<(Seq<char>, Seq<char>)>) -> bool {
    g.prefix == p && g.delimiter == d
}

/// Position of the last of the first `n` groups whose key is `(p, d)`; -1 if none.
pub open spec fn key_index(
    gs: Seq<GroupView>,
    p: Seq<char>,
    d: Option<(Seq<char>, Seq<char>)>,
    n: int,
) -> int
    decreases n,
{
    if n <= 0 {
        -1
    } else if same_key(gs[n - 1], p, d) {
        n - 1
    } else {
        key_index(gs, p, d, n - 1)
    }
}

/// Records that file `f` carries key `(p, d)`: a new group at the end for a
/// new key, else `f` joins the key's group unless it is there already.
pub open spec fn add_hit(
    gs: Seq<GroupView>,
    p: Seq<char>,
    d: Option<(Seq<char>, Seq<char>)>,
    f: Seq<char>,
) -> Seq<GroupView> {
    let i = key_index(gs, p, d, gs.len() as int);
    if i < 0 {
        gs.push(GroupView { prefix: p, delimiter: d, occurrences: 1, files: seq![f] })
    } else if gs[i].files.contains(f) {
        gs
    } else {
        gs.update(
            i,
            GroupView {
                prefix: p,
                delimiter: d,
                occurrences: gs[i].files.len() + 1,
                files: gs[i].files.push(f),
            },
        )
    }
}

/// The hits of file `f` for each delimiter pair, in the order of the pairs.
pub open spec fn scan_pairs(
    gs: Seq<GroupView>,
    f: Seq<char>,
    pairs: Seq<(Seq<char>, Seq<char>)>,
) -> Seq<GroupView>
    decreases pairs.len(),
{
    if pairs.len() == 0 {
        gs
    } else {
        let g2 = scan_pairs(gs, f, pairs.drop_last());
        match delimited_prefix(f, pairs.last().0, pairs.last().1) {
            Some(p) => add_hit(g2, p, Some(pairs.last()), f),
            None => g2,
        }
    }
}

/// The hits of file `f` for each free-form prefix in `ps`, in order.
pub open spec fn scan_free(gs: Seq<GroupView>, f: Seq<char>, ps: Seq<Seq<char>>) -> Seq<GroupView>
    decreases ps.len(),
{
    if ps.len() == 0 {
        gs
    } else {
        add_hit(scan_free(gs, f, ps.drop_last()), ps.last(), None, f)
    }
}

/// The delimiter-keyed groups of the files, keys in order of discovery.
pub open spec fn delimited_groups(
    files: Seq<Seq<char>>,
    pairs: Seq<(Seq<char>, Seq<char>)>,
) -> Seq<GroupView>
    decreases files.len(),
{
    if files.len() == 0 {
        Seq::empty()
    } else {
        scan_pairs(delimited_groups(files.drop_last(), pairs), files.last(), pairs)
    }
}

/// Those of `prefixes` that begin `f`, in order.
pub open spec fn matching_prefixes(f: Seq<char>, prefixes: Seq<Seq<char>>) -> Seq<Seq<char>>
    decreases prefixes.len(),
{
    if prefixes.len() == 0 {
        Seq::empty()
    } else {
        let r = matching_prefixes(f, prefixes.drop_last());
        if has_prefix(f, prefixes.last()) {
            r.push(prefixes.last())
        } else {
            r
        }
    }
}

/// The free-form keys that a file carries under a mode.
pub open spec fn free_hits(f: Seq<char>, mode: PrefixMode) -> Seq<Seq<char>> {
    match mode {
        PrefixMode::DelimiterOnly { .. } => Seq::empty(),
        PrefixMode::SpecificPrefixes { prefixes } => matching_prefixes(f, strings_view(prefixes@)),
        PrefixMode::DetectAll { .. } => prefix_candidates(f),
    }
}

/// The free-form groups of the files, keys in order of discovery.
pub open spec fn free_groups(files: Seq<Seq<char>>, mode: PrefixMode) -> Seq<GroupView>
    decreases files.len(),
{
    if files.len() == 0 {
        Seq::empty()
    } else {
        scan_free(free_groups(files.drop_last(), mode), files.last(), free_hits(files.last(), mode))
    }
}

/// The groups with at least `k` files, in order.
pub open spec fn frequent(gs: Seq<GroupView>, k: nat) -> Seq<GroupView>
    decreases gs.len(),
{
    if gs.len() == 0 {
        Seq::empty()
    } else {
        let r = frequent(gs.drop_last(), k);
        if gs.last().files.len() >= k {
            r.push(gs.last())
        } else {
            r
        }
    }
}

/// Every file of `small` is a file of `big`.
pub open spec fn covers_files(big: GroupView, small: GroupView) -> bool {
    forall|x: Seq<char>| small.files.contains(x) ==> big.files.contains(x)
}

/// Some delimited group of `ds` holds every file of `g`.
pub open spec fn covered_by_delimited(g: GroupView, ds: Seq<GroupView>) -> bool {
    exists|j: int| 0 <= j < ds.len() && ds[j].delimiter is Some && covers_files(ds[j], g)
}

/// The text ends in an opening bracket, brace, parenthesis or quote.
pub open spec fn ends_with_open_or_quote(p: Seq<char>) -> bool {
    p.len() > 0 && (p.last() == '[' || p.last() == '(' || p.last() == '{' || p.last() == '"'
        || p.last() == '\'')
}

pub open spec fn free_survivor(g: GroupView, ds: Seq<GroupView>, k: nat) -> bool {
    g.files.len() >= k && !covered_by_delimited(g, ds) && !ends_with_open_or_quote(g.prefix)
}

/// The free-form groups that pass the threshold, are not covered by a
/// delimited group, and do not end in an opening character; in order.
pub open spec fn surviving(gs: Seq<GroupView>, ds: Seq<GroupView>, k: nat) -> Seq<GroupView>
    decreases gs.len(),
{
    if gs.len() == 0 {
        Seq::empty()
    } else {
        let r = surviving(gs.drop_last(), ds, k);
        if free_survivor(gs.last(), ds, k) {
            r.push(gs.last())
        } else {
            r
        }
    }
}

/// The key a sort orders by: prefix length or number of files.
pub open spec fn sort_key(g: GroupView, by_len: bool) -> nat {
    if by_len {
        g.prefix.len()
    } else {
        g.occurrences
    }
}

/// The first position from `i` on whose key is below `kx`, else the end.
pub open spec fn insert_pos(s: Seq<GroupView>, kx: nat, by_len: bool, i: int) -> int
    decreases s.len() - i,
{
    if i < 0 || i >= s.len() {
        s.len() as int
    } else if sort_key(s[i], by_len) < kx {
        i
    } else {
        insert_pos(s, kx, by_len, i + 1)
    }
}

/// `s` ordered by decreasing key; equal keys keep their order (insertion sort).
pub open spec fn sorted_desc(s: Seq<GroupView>, by_len: bool) -> Seq<GroupView>
    decreases s.len(),
{
    if s.len() == 0 {
        Seq::empty()
    } else {
        let r = sorted_desc(s.drop_last(), by_len);
        r.insert(insert_pos(r, sort_key(s.last(), by_len), by_len, 0), s.last())
    }
}

/// `s` extends `c`: its prefix begins with `c`'s and it holds all of `c`'s files.
pub open spec fn extends(s: GroupView, c: GroupView) -> bool {
    has_prefix(s.prefix, c.prefix) && covers_files(s, c)
}

/// Walks `cs` in order and keeps each group that no kept group extends.
pub open spec fn without_redundant(cs: Seq<GroupView>) -> Seq<GroupView>
    decreases cs.len(),
{
    if cs.len() == 0 {
        Seq::empty()
    } else {
        let kept = without_redundant(cs.drop_last());
        if exists|j: int| 0 <= j < kept.len() && extends(kept[j], cs.last()) {
            kept
        } else {
            kept.push(cs.last())
        }
    }
}

/// The delimited groups that reach the threshold.
pub open spec fn kept_delimited(files: Seq<Seq<char>>, o: PrefixOptions) -> Seq<GroupView> {
    frequent(delimited_groups(files, mode_delimiters(o.mode)), o.min_occurrences as nat)
}

/// The free-form groups that survive every rule, longest prefix first.
pub open spec fn kept_free(files: Seq<Seq<char>>, o: PrefixOptions) -> Seq<GroupView> {
    let fs = surviving(
        free_groups(files, o.mode),
        kept_delimited(files, o),
        o.min_occurrences as nat,
    );
    without_redundant(sorted_desc(sorted_desc(fs, false), true))
}

/// All prefix groups of a directory listing: the kept delimited groups, then
/// the kept free-form ones, ordered by decreasing number of files; groups
/// with equal counts keep that order.
pub open spec fn common_prefixes(files: Seq<Seq<char>>, o: PrefixOptions) -> Seq<GroupView> {
    sorted_desc(kept_delimited(files, o) + kept_free(files, o), false)
}

pub(crate) fn copy_string(s: &String) -> (r: String)
    ensures
        r@ == s@,
{
    String::from_str(s.as_str())
}

pub(crate) fn copy_strings(v: &Vec<String>) -> (r: Vec<String>)
    ensures
        strings_view(r@) == strings_view(v@),
{
    let mut r: Vec<String> = Vec::new();
    let mut i: usize = 0;
    while i < v.len()
        invariant
            i <= v@.len(),
            strings_view(r@) == strings_view(v@).subrange(0, i as int),
        decreases v.len() - i,
    {
        let c = copy_string(&v[i]);
        proof {
            lemma_strings_push(r@, c);
        }
        r.push(c);
        i += 1;
        assert(strings_view(r@) =~= strings_view(v@).subrange(0, i as int));
    }
    assert(strings_view(v@).subrange(0, i as int) =~= strings_view(v@));
    r
}

fn copy_delimiter(d: &Option<(String, String)>) -> (r: Option<(String, String)>)
    ensures
        crate::prefix_finder::delimiter_view(r) == crate::prefix_finder::delimiter_view(*d),
{
    match d {
        Some(p) => Some((copy_string(&p.0), copy_string(&p.1))),
        None => None,
    }
}

/// A deep copy of a group.
pub fn copy_group(g: &CommonPrefix) -> (r: CommonPrefix)
    ensures
        r@ == g@,
{
    CommonPrefix {
        prefix: copy_string(&g.prefix),
        delimiter: copy_delimiter(&g.delimiter),
        occurrences: g.occurrences,
        files: copy_strings(&g.files),
    }
}

/// Does `v` hold a string equal to `s`.
pub fn contains_string(v: &Vec<String>, s: &String) -> (r: bool)
    ensures
        r == strings_view(v@).contains(s@),
{
    let mut i: usize = 0;
    while i < v.len()
        invariant
            i <= v@.len(),
            forall|j: int| 0 <= j < i ==> v@[j]@ != s@,
        decreases v.len() - i,
    {
        if v[i] == *s {
            assert(strings_view(v@)[i as int] == s@);
            return true;
        }
        i += 1;
    }
    assert(!strings_view(v@).contains(s@));
    false
}

fn same_key_exec(g: &CommonPrefix, p: &String, d: &Option<(String, String)>) -> (r: bool)
    ensures
        r == same_key(g@, p@, crate::prefix_finder::delimiter_view(*d)),
{
    if g.prefix != *p {
        return false;
    }
    match (&g.delimiter, d) {
        (Some(a), Some(b)) => a.0 == b.0 && a.1 == b.1,
        (None, None) => true,
        _ => false,
    }
}

fn find_key(groups: &Vec<CommonPrefix>, p: &String, d: &Option<(String, String)>) -> (r: Option<
    usize,
>)
    ensures
        match r {
            Some(i) => i as int == key_index(
                groups_view(groups@),
                p@,
                crate::prefix_finder::delimiter_view(*d),
                groups@.len() as int,
            ) && i < groups@.len(),
            None => key_index(
                groups_view(groups@),
                p@,
                crate::prefix_finder::delimiter_view(*d),
                groups@.len() as int,
            ) < 0,
        },
{
    let ghost gv = groups_view(groups@);
    let ghost dv = crate::prefix_finder::delimiter_view(*d);
    let mut n = groups.len();
    while n > 0
        invariant
            gv == groups_view(groups@),
            dv == crate::prefix_finder::delimiter_view(*d),
            n <= groups@.len(),
            key_index(gv, p@, dv, groups@.len() as int) == key_index(gv, p@, dv, n as int),
        decreases n,
    {
        assert(gv[n - 1] == groups@[n - 1]@);
        let g = &groups[n - 1];
        assert(g@ == gv[n - 1]);
        let hit = same_key_exec(g, p, d);
        assert(hit == same_key(g@, p@, dv));
        assert(hit == same_key(gv[n - 1], p@, dv));
        if hit {
            assert(key_index(gv, p@, dv, n as int) == n - 1);
            return Some(n - 1);
        }
        assert(key_index(gv, p@, dv, n as int) == key_index(gv, p@, dv, n - 1));
        n -= 1;
    }
    None
}

proof fn lemma_key_index(
    gs: Seq<GroupView>,
    p: Seq<char>,
    d: Option<(Seq<char>, Seq<char>)>,
    n: int,
)
    requires
        0 <= n <= gs.len(),
    ensures
        key_index(gs, p, d, n) < n,
        key_index(gs, p, d, n) >= 0 ==> same_key(gs[key_index(gs, p, d, n)], p, d),
    decreases n,
{
    if n > 0 && !same_key(gs[n - 1], p, d) {
        lemma_key_index(gs, p, d, n - 1);
    }
}

proof fn lemma_groups_view_update(v: Seq<CommonPrefix>, i: int, g: CommonPrefix)
    requires
        0 <= i < v.len(),
    ensures
        groups_view(v.remove(i).insert(i, g)) == groups_view(v).update(i, g@),
{
    assert(groups_view(v.remove(i).insert(i, g)) =~= groups_view(v).update(i, g@));
}

/// Adds one hit to the groups, as `add_hit` describes.
fn add_hit_exec(
    groups: &mut Vec<CommonPrefix>,
    prefix: String,
    delimiter: Option<(String, String)>,
    file: &String,
)
    ensures
        groups_view(final(groups)@) == add_hit(
            groups_view(old(groups)@),
            prefix@,
            crate::prefix_finder::delimiter_view(delimiter),
            file@,
        ),
{
    let ghost dv = crate::prefix_finder::delimiter_view(delimiter);
    match find_key(groups, &prefix, &delimiter) {
        None => {
            let g = CommonPrefix {
                prefix,
                delimiter,
                occurrences: 1,
                files: vec![copy_string(file)],
            };
            assert(g@.files =~= seq![file@]);
            proof {
                lemma_groups_push(groups@, g);
            }
            groups.push(g);
            assert(groups_view(groups@) == add_hit(
                groups_view(old(groups)@),
                prefix@,
                dv,
                file@,
            ));
        },
        Some(i) => {
            if contains_string(&groups[i].files, file) {
                return ;
            }
            let ghost before = groups@;
            let mut g = groups.remove(i);
            g.files.push(copy_string(file));
            g.occurrences = g.files.len();
            groups.insert(i, g);
            proof {
                lemma_groups_view_update(before, i as int, g);
                assert(g@.files =~= before[i as int]@.files.push(file@));
                lemma_key_index(groups_view(before), prefix@, dv, before.len() as int);
                assert(groups_view(before)[i as int] == before[i as int]@);
            }
            assert(groups_view(groups@) =~= add_hit(
                groups_view(old(groups)@),
                prefix@,
                dv,
                file@,
            ));
        },
    }
}

fn scan_pairs_exec(groups: &mut Vec<CommonPrefix>, file: &String, delimiters: &Vec<(String, String)>)
    ensures
        groups_view(final(groups)@) == scan_pairs(
            groups_view(old(groups)@),
            file@,
            pairs_view(delimiters@),
        ),
{
    let ghost g0 = groups_view(groups@);
    let ghost pv = pairs_view(delimiters@);
    let mut j: usize = 0;
    assert(pv.subrange(0, 0) =~= Seq::<(Seq<char>, Seq<char>)>::empty());
    while j < delimiters.len()
        invariant
            pv == pairs_view(delimiters@),
            j <= delimiters@.len(),
            groups_view(groups@) == scan_pairs(g0, file@, pv.subrange(0, j as int)),
        decreases delimiters.len() - j,
    {
        let open = delimiters[j].0.as_str();
        let close = delimiters[j].1.as_str();
        assert(pv.subrange(0, j + 1).drop_last() =~= pv.subrange(0, j as int));
        assert(pv.subrange(0, j + 1).last() == (open@, close@));
        if let Some(p) = extract_prefix_with_delimiter(file.as_str(), open, close) {
            add_hit_exec(groups, p, Some((String::from_str(open), String::from_str(close))), file);
        }
        j += 1;
    }
    assert(pv.subrange(0, j as int) =~= pv);
}

fn scan_free_exec(groups: &mut Vec<CommonPrefix>, file: &String, hits: Vec<String>)
    ensures
        groups_view(final(groups)@) == scan_free(
            groups_view(old(groups)@),
            file@,
            strings_view(hits@),
        ),
{
    let ghost g0 = groups_view(groups@);
    let ghost hv = strings_view(hits@);
    let mut j: usize = 0;
    assert(hv.subrange(0, 0) =~= Seq::<Seq<char>>::empty());
    while j < hits.len()
        invariant
            hv == strings_view(hits@),
            j <= hits@.len(),
            groups_view(groups@) == scan_free(g0, file@, hv.subrange(0, j as int)),
        decreases hits.len() - j,
    {
        assert(hv.subrange(0, j + 1).drop_last() =~= hv.subrange(0, j as int));
        add_hit_exec(groups, copy_string(&hits[j]), None, file);
        j += 1;
    }
    assert(hv.subrange(0, j as int) =~= hv);
}

/// Those of `prefixes` that begin `filename`, in order.
pub fn matching_prefix_list(filename: &String, prefixes: &Vec<String>) -> (r: Vec<String>)
    ensures
        strings_view(r@) == matching_prefixes(filename@, strings_view(prefixes@)),
{
    let ghost pv = strings_view(prefixes@);
    let fc = chars_of(filename.as_str());
    let mut r: Vec<String> = Vec::new();
    let mut j: usize = 0;
    assert(pv.subrange(0, 0) =~= Seq::<Seq<char>>::empty());
    while j < prefixes.len()
        invariant
            pv == strings_view(prefixes@),
            fc@ == filename@,
            j <= prefixes@.len(),
            strings_view(r@) == matching_prefixes(filename@, pv.subrange(0, j as int)),
        decreases prefixes.len() - j,
    {
        assert(pv.subrange(0, j + 1).drop_last() =~= pv.subrange(0, j as int));
        let pc = chars_of(prefixes[j].as_str());
        if starts_with_chars(&fc, &pc) {
            let p = copy_string(&prefixes[j]);
            r.push(p);
            assert(strings_view(r@) =~= matching_prefixes(filename@, pv.subrange(0, j + 1)));
        }
        j += 1;
    }
    assert(pv.subrange(0, j as int) =~= pv);
    r
}

fn collect_delimited(filenames: &Vec<String>, delimiters: &Vec<(String, String)>) -> (r: Vec<
    CommonPrefix,
>)
    ensures
        groups_view(r@) == delimited_groups(strings_view(filenames@), pairs_view(delimiters@)),
{
    let ghost fv = strings_view(filenames@);
    let mut groups: Vec<CommonPrefix> = Vec::new();
    let mut i: usize = 0;
    assert(groups_view(groups@) =~= delimited_groups(fv.subrange(0, 0), pairs_view(delimiters@)));
    while i < filenames.len()
        invariant
            fv == strings_view(filenames@),
            i <= filenames@.len(),
            groups_view(groups@) == delimited_groups(
                fv.subrange(0, i as int),
                pairs_view(delimiters@),
            ),
        decreases filenames.len() - i,
    {
        assert(fv.subrange(0, i + 1).drop_last() =~= fv.subrange(0, i as int));
        scan_pairs_exec(&mut groups, &filenames[i], delimiters);
        i += 1;
    }
    assert(fv.subrange(0, i as int) =~= fv);
    groups
}

fn free_hit_list(filename: &String, mode: &PrefixMode) -> (r: Vec<String>)
    ensures
        strings_view(r@) == free_hits(filename@, *mode),
{
    match mode {
        PrefixMode::DelimiterOnly { .. } => {
            let r: Vec<String> = Vec::new();
            assert(strings_view(r@) =~= Seq::<Seq<char>>::empty());
            r
        },
        PrefixMode::SpecificPrefixes { prefixes } => matching_prefix_list(filename, prefixes),
        PrefixMode::DetectAll { .. } => generate_prefix_candidates(filename.as_str()),
    }
}

fn collect_free(filenames: &Vec<String>, mode: &PrefixMode) -> (r: Vec<CommonPrefix>)
    ensures
        groups_view(r@) == free_groups(strings_view(filenames@), *mode),
{
    let ghost fv = strings_view(filenames@);
    let mut groups: Vec<CommonPrefix> = Vec::new();
    let mut i: usize = 0;
    assert(groups_view(groups@) =~= free_groups(fv.subrange(0, 0), *mode));
    while i < filenames.len()
        invariant
            fv == strings_view(filenames@),
            i <= filenames@.len(),
            groups_view(groups@) == free_groups(fv.subrange(0, i as int), *mode),
        decreases filenames.len() - i,
    {
        assert(fv.subrange(0, i + 1).drop_last() =~= fv.subrange(0, i as int));
        let hits = free_hit_list(&filenames[i], mode);
        scan_free_exec(&mut groups, &filenames[i], hits);
        i += 1;
    }
    assert(fv.subrange(0, i as int) =~= fv);
    groups
}

/// Viewing a vector after a push is viewing it before, then the new group.
pub proof fn lemma_groups_push(v: Seq<CommonPrefix>, g: CommonPrefix)
    ensures
        groups_view(v.push(g)) == groups_view(v).push(g@),
{
    assert(groups_view(v.push(g)) =~= groups_view(v).push(g@));
}

fn keep_frequent(gs: &Vec<CommonPrefix>, k: usize) -> (r: Vec<CommonPrefix>)
    ensures
        groups_view(r@) == frequent(groups_view(gs@), k as nat),
{
    let ghost gv = groups_view(gs@);
    let mut r: Vec<CommonPrefix> = Vec::new();
    let mut i: usize = 0;
    assert(gv.subrange(0, 0) =~= Seq::<GroupView>::empty());
    while i < gs.len()
        invariant
            gv == groups_view(gs@),
            i <= gs@.len(),
            groups_view(r@) == frequent(gv.subrange(0, i as int), k as nat),
        decreases gs.len() - i,
    {
        assert(gv.subrange(0, i + 1).drop_last() =~= gv.subrange(0, i as int));
        if gs[i].files.len() >= k {
            let g = copy_group(&gs[i]);
            proof {
                lemma_groups_push(r@, g);
            }
            r.push(g);
        }
        i += 1;
    }
    assert(gv.subrange(0, i as int) =~= gv);
    r
}

/// Every file of `small` is a file of `big`.
fn covers_exec(big: &CommonPrefix, small: &CommonPrefix) -> (r: bool)
    ensures
        r == covers_files(big@, small@),
{
    let mut i: usize = 0;
    while i < small.files.len()
        invariant
            i <= small.files@.len(),
            forall|j: int| 0 <= j < i ==> big@.files.contains(small@.files[j]),
        decreases small.files.len() - i,
    {
        if !contains_string(&big.files, &small.files[i]) {
            assert(small@.files.contains(small@.files[i as int]));
            return false;
        }
        i += 1;
    }
    assert forall|x: Seq<char>| small@.files.contains(x) implies big@.files.contains(x) by {
        let j = choose|j: int| 0 <= j < small@.files.len() && small@.files[j] == x;
        assert(big@.files.contains(small@.files[j]));
    }
    true
}

fn covered_exec(g: &CommonPrefix, ds: &Vec<CommonPrefix>) -> (r: bool)
    ensures
        r == covered_by_delimited(g@, groups_view(ds@)),
{
    let ghost dv = groups_view(ds@);
    let mut j: usize = 0;
    while j < ds.len()
        invariant
            dv == groups_view(ds@),
            j <= ds@.len(),
            forall|m: int| 0 <= m < j ==> !(dv[m].delimiter is Some && covers_files(dv[m], g@)),
        decreases ds.len() - j,
    {
        if ds[j].delimiter.is_some() && covers_exec(&ds[j], g) {
            assert(dv[j as int].delimiter is Some && covers_files(dv[j as int], g@));
            return true;
        }
        j += 1;
    }
    false
}

fn ends_with_open_or_quote_exec(p: &String) -> (r: bool)
    ensures
        r == ends_with_open_or_quote(p@),
{
    let pc = chars_of(p.as_str());
    let n = pc.len();
    n > 0 && (pc[n - 1] == '[' || pc[n - 1] == '(' || pc[n - 1] == '{' || pc[n - 1] == '"'
        || pc[n - 1] == '\'')
}

fn keep_survivors(gs: &Vec<CommonPrefix>, ds: &Vec<CommonPrefix>, k: usize) -> (r: Vec<
    CommonPrefix,
>)
    ensures
        groups_view(r@) == surviving(groups_view(gs@), groups_view(ds@), k as nat),
{
    let ghost gv = groups_view(gs@);
    let mut r: Vec<CommonPrefix> = Vec::new();
    let mut i: usize = 0;
    assert(gv.subrange(0, 0) =~= Seq::<GroupView>::empty());
    while i < gs.len()
        invariant
            gv == groups_view(gs@),
            i <= gs@.len(),
            groups_view(r@) == surviving(gv.subrange(0, i as int), groups_view(ds@), k as nat),
        decreases gs.len() - i,
    {
        assert(gv.subrange(0, i + 1).drop_last() =~= gv.subrange(0, i as int));
        let g = &gs[i];
        if g.files.len() >= k && !covered_exec(g, ds) && !ends_with_open_or_quote_exec(&g.prefix) {
            let c = copy_group(g);
            proof {
                lemma_groups_push(r@, c);
            }
            r.push(c);
        }
        i += 1;
    }
    assert(gv.subrange(0, i as int) =~= gv);
    r
}

fn key_of(g: &CommonPrefix, by_len: bool) -> (r: usize)
    ensures
        r as nat == sort_key(g@, by_len),
{
    if by_len {
        g.prefix.as_str().unicode_len()
    } else {
        g.occurrences
    }
}

fn insert_position(r: &Vec<CommonPrefix>, kx: usize, by_len: bool) -> (p: usize)
    ensures
        p as int == insert_pos(groups_view(r@), kx as nat, by_len, 0),
        p <= r@.len(),
{
    let ghost rv = groups_view(r@);
    let mut i: usize = 0;
    while i < r.len()
        invariant
            rv == groups_view(r@),
            i <= r@.len(),
            insert_pos(rv, kx as nat, by_len, 0) == insert_pos(rv, kx as nat, by_len, i as int),
        decreases r.len() - i,
    {
        if key_of(&r[i], by_len) < kx {
            return i;
        }
        i += 1;
    }
    i
}

proof fn lemma_groups_insert(v: Seq<CommonPrefix>, i: int, g: CommonPrefix)
    requires
        0 <= i <= v.len(),
    ensures
        groups_view(v.insert(i, g)) == groups_view(v).insert(i, g@),
{
    assert(groups_view(v.insert(i, g)) =~= groups_view(v).insert(i, g@));
}

/// The groups ordered by decreasing key (prefix length or file count);
/// groups with equal keys keep their relative order.
pub fn sort_groups(gs: &Vec<CommonPrefix>, by_len: bool) -> (r: Vec<CommonPrefix>)
    ensures
        groups_view(r@) == sorted_desc(groups_view(gs@), by_len),
{
    let ghost gv = groups_view(gs@);
    let mut r: Vec<CommonPrefix> = Vec::new();
    let mut i: usize = 0;
    assert(gv.subrange(0, 0) =~= Seq::<GroupView>::empty());
    while i < gs.len()
        invariant
            gv == groups_view(gs@),
            i <= gs@.len(),
            groups_view(r@) == sorted_desc(gv.subrange(0, i as int), by_len),
        decreases gs.len() - i,
    {
        assert(gv.subrange(0, i + 1).drop_last() =~= gv.subrange(0, i as int));
        let g = copy_group(&gs[i]);
        let kx = key_of(&g, by_len);
        let p = insert_position(&r, kx, by_len);
        proof {
            lemma_groups_insert(r@, p as int, g);
        }
        r.insert(p, g);
        i += 1;
    }
    assert(gv.subrange(0, i as int) =~= gv);
    r
}

fn extends_exec(s: &CommonPrefix, c: &CommonPrefix) -> (r: bool)
    ensures
        r == extends(s@, c@),
{
    let sc = chars_of(s.prefix.as_str());
    let cc = chars_of(c.prefix.as_str());
    starts_with_chars(&sc, &cc) && covers_exec(s, c)
}

fn extended_by_any(kept: &Vec<CommonPrefix>, c: &CommonPrefix) -> (r: bool)
    ensures
        r == exists|j: int| 0 <= j < kept@.len() && extends(groups_view(kept@)[j], c@),
{
    let ghost kv = groups_view(kept@);
    let mut j: usize = 0;
    while j < kept.len()
        invariant
            kv == groups_view(kept@),
            j <= kept@.len(),
            forall|m: int| 0 <= m < j ==> !extends(kv[m], c@),
        decreases kept.len() - j,
    {
        assert(kv[j as int] == kept@[j as int]@);
        if extends_exec(&kept[j], c) {
            return true;
        }
        j += 1;
    }
    false
}

fn drop_redundant(cs: &Vec<CommonPrefix>) -> (r: Vec<CommonPrefix>)
    ensures
        groups_view(r@) == without_redundant(groups_view(cs@)),
{
    let ghost cv = groups_view(cs@);
    let mut kept: Vec<CommonPrefix> = Vec::new();
    let mut i: usize = 0;
    assert(cv.subrange(0, 0) =~= Seq::<GroupView>::empty());
    while i < cs.len()
        invariant
            cv == groups_view(cs@),
            i <= cs@.len(),
            groups_view(kept@) == without_redundant(cv.subrange(0, i as int)),
        decreases cs.len() - i,
    {
        assert(cv.subrange(0, i + 1).drop_last() =~= cv.subrange(0, i as int));
        if !extended_by_any(&kept, &cs[i]) {
            let c = copy_group(&cs[i]);
            proof {
                lemma_groups_push(kept@, c);
            }
            kept.push(c);
        }
        i += 1;
    }
    assert(cv.subrange(0, i as int) =~= cv);
    kept
}

/// All prefix groups of a directory whose regular files are `filenames`,
/// listed in ascending code point order, each once.
///
/// Delimiter-keyed groups with at least `min_occurrences` files are kept.
/// Free-form groups (literal or generated prefixes) are kept when they have
/// enough files, no delimited group holds all of their files, and their
/// prefix does not end in an opening bracket or quote; among those, a group
/// is dropped when a longer kept prefix that begins with it holds all of its
/// files. The result is ordered by decreasing number of files; ties keep
/// the order in which the groups were found, delimited ones first.
pub fn find_common_prefix(filenames: &Vec<String>, options: &PrefixOptions) -> (r: Vec<CommonPrefix>)
    requires
        strictly_ascending(strings_view(filenames@)),
    ensures
        groups_view(r@) == common_prefixes(strings_view(filenames@), *options),
{
    let k = options.min_occurrences;
    let delimited = match &options.mode {
        PrefixMode::DelimiterOnly { delimiters } => collect_delimited(filenames, delimiters),
        PrefixMode::SpecificPrefixes { .. } => {
            let e: Vec<CommonPrefix> = Vec::new();
            assert(groups_view(e@) =~= delimited_groups(
                strings_view(filenames@),
                Seq::empty(),
            )) by {
                lemma_no_pairs(strings_view(filenames@));
            }
            e
        },
        PrefixMode::DetectAll { delimiters } => collect_delimited(filenames, delimiters),
    };
    let mut ds = keep_frequent(&delimited, k);
    let free = collect_free(filenames, &options.mode);
    let fs = keep_survivors(&free, &ds, k);
    let by_count = sort_groups(&fs, false);
    let by_len = sort_groups(&by_count, true);
    let mut walked = drop_redundant(&by_len);
    let ghost dv = groups_view(ds@);
    let ghost wv = groups_view(walked@);
    ds.append(&mut walked);
    assert(groups_view(ds@) =~= dv + wv);
    sort_groups(&ds, false)
}

proof fn lemma_no_pairs(files: Seq<Seq<char>>)
    ensures
        delimited_groups(files, Seq::empty()) == Seq::<GroupView>::empty(),
    decreases files.len(),
{
    if files.len() > 0 {
        lemma_no_pairs(files.drop_last());
    }
}


/// A group as aggregation leaves it: its count is the number of its files,
/// it has at least `k` of them, and no file appears twice.
pub open spec fn sound_group(g: GroupView, k: nat) -> bool {
    g.occurrences == g.files.len() && g.files.len() >= k && g.files.no_duplicates()
}

pub open spec fn all_sound(gs: Seq<GroupView>, k: nat) -> bool {
    forall|i: int| 0 <= i < gs.len() ==> #[trigger] sound_group(gs[i], k)
}

proof fn lemma_push_distinct(fs: Seq<Seq<char>>, f: Seq<char>)
    requires
        fs.no_duplicates(),
        !fs.contains(f),
    ensures
        fs.push(f).no_duplicates(),
{
    let n = fs.len() as int;
    assert forall|a: int, b: int|
        0 <= a < n + 1 && 0 <= b < n + 1 && a != b implies fs.push(f)[a] != fs.push(f)[b] by {
        if a == n {
            assert(fs.push(f)[b] == fs[b]);
        } else if b == n {
            assert(fs.push(f)[a] == fs[a]);
        }
    }
}

proof fn lemma_add_hit_sound(
    gs: Seq<GroupView>,
    p: Seq<char>,
    d: Option<(Seq<char>, Seq<char>)>,
    f: Seq<char>,
)
    requires
        all_sound(gs, 0),
    ensures
        all_sound(add_hit(gs, p, d, f), 0),
{
    let i = key_index(gs, p, d, gs.len() as int);
    lemma_key_index(gs, p, d, gs.len() as int);
    let r = add_hit(gs, p, d, f);
    if i < 0 {
        assert(sound_group(r[gs.len() as int], 0));
    } else if !gs[i].files.contains(f) {
        assert(sound_group(gs[i], 0));
        lemma_push_distinct(gs[i].files, f);
        assert(sound_group(r[i], 0));
    }
    assert forall|j: int| 0 <= j < r.len() implies #[trigger] sound_group(r[j], 0) by {
        if j < gs.len() && j != i {
            assert(sound_group(gs[j], 0));
        }
    }
}

proof fn lemma_scan_pairs_sound(
    gs: Seq<GroupView>,
    f: Seq<char>,
    pairs: Seq<(Seq<char>, Seq<char>)>,
)
    requires
        all_sound(gs, 0),
    ensures
        all_sound(scan_pairs(gs, f, pairs), 0),
    decreases pairs.len(),
{
    if pairs.len() > 0 {
        lemma_scan_pairs_sound(gs, f, pairs.drop_last());
        let g2 = scan_pairs(gs, f, pairs.drop_last());
        if let Some(p) = delimited_prefix(f, pairs.last().0, pairs.last().1) {
            lemma_add_hit_sound(g2, p, Some(pairs.last()), f);
        }
    }
}

proof fn lemma_delimited_groups_sound(files: Seq<Seq<char>>, pairs: Seq<(Seq<char>, Seq<char>)>)
    ensures
        all_sound(delimited_groups(files, pairs), 0),
    decreases files.len(),
{
    if files.len() > 0 {
        lemma_delimited_groups_sound(files.drop_last(), pairs);
        lemma_scan_pairs_sound(delimited_groups(files.drop_last(), pairs), files.last(), pairs);
    }
}

proof fn lemma_scan_free_sound(gs: Seq<GroupView>, f: Seq<char>, ps: Seq<Seq<char>>)
    requires
        all_sound(gs, 0),
    ensures
        all_sound(scan_free(gs, f, ps), 0),
    decreases ps.len(),
{
    if ps.len() > 0 {
        lemma_scan_free_sound(gs, f, ps.drop_last());
        lemma_add_hit_sound(scan_free(gs, f, ps.drop_last()), ps.last(), None, f);
    }
}

proof fn lemma_free_groups_sound(files: Seq<Seq<char>>, mode: PrefixMode)
    ensures
        all_sound(free_groups(files, mode), 0),
    decreases files.len(),
{
    if files.len() > 0 {
        lemma_free_groups_sound(files.drop_last(), mode);
        lemma_scan_free_sound(
            free_groups(files.drop_last(), mode),
            files.last(),
            free_hits(files.last(), mode),
        );
    }
}

proof fn lemma_frequent_sound(gs: Seq<GroupView>, k: nat)
    requires
        all_sound(gs, 0),
    ensures
        all_sound(frequent(gs, k), k),
    decreases gs.len(),
{
    if gs.len() > 0 {
        assert(all_sound(gs.drop_last(), 0)) by {
            assert forall|i: int| 0 <= i < gs.drop_last().len() implies #[trigger] sound_group(
                gs.drop_last()[i],
                0,
            ) by {
                assert(sound_group(gs[i], 0));
            }
        }
        lemma_frequent_sound(gs.drop_last(), k);
        assert(sound_group(gs[gs.len() - 1], 0));
    }
}

proof fn lemma_surviving_sound(gs: Seq<GroupView>, ds: Seq<GroupView>, k: nat)
    requires
        all_sound(gs, 0),
    ensures
        all_sound(surviving(gs, ds, k), k),
    decreases gs.len(),
{
    if gs.len() > 0 {
        assert(all_sound(gs.drop_last(), 0)) by {
            assert forall|i: int| 0 <= i < gs.drop_last().len() implies #[trigger] sound_group(
                gs.drop_last()[i],
                0,
            ) by {
                assert(sound_group(gs[i], 0));
            }
        }
        lemma_surviving_sound(gs.drop_last(), ds, k);
        assert(sound_group(gs[gs.len() - 1], 0));
    }
}

proof fn lemma_insert_pos_bound(s: Seq<GroupView>, kx: nat, by_len: bool, i: int)
    requires
        0 <= i,
    ensures
        0 <= insert_pos(s, kx, by_len, i) <= s.len(),
    decreases s.len() - i,
{
    if i < s.len() && sort_key(s[i], by_len) >= kx {
        lemma_insert_pos_bound(s, kx, by_len, i + 1);
    }
}

proof fn lemma_sorted_sound(s: Seq<GroupView>, by_len: bool, k: nat)
    requires
        all_sound(s, k),
    ensures
        all_sound(sorted_desc(s, by_len), k),
        sorted_desc(s, by_len).len() == s.len(),
    decreases s.len(),
{
    if s.len() > 0 {
        assert(all_sound(s.drop_last(), k)) by {
            assert forall|i: int| 0 <= i < s.drop_last().len() implies #[trigger] sound_group(
                s.drop_last()[i],
                k,
            ) by {
                assert(sound_group(s[i], k));
            }
        }
        lemma_sorted_sound(s.drop_last(), by_len, k);
        let r = sorted_desc(s.drop_last(), by_len);
        let p = insert_pos(r, sort_key(s.last(), by_len), by_len, 0);
        lemma_insert_pos_bound(r, sort_key(s.last(), by_len), by_len, 0);
        let t = r.insert(p, s.last());
        assert(sound_group(s[s.len() - 1], k));
        assert forall|i: int| 0 <= i < t.len() implies #[trigger] sound_group(t[i], k) by {
            if i < p {
                assert(t[i] == r[i]);
                assert(sound_group(r[i], k));
            } else if i > p {
                assert(t[i] == r[i - 1]);
                assert(sound_group(r[i - 1], k));
            }
        }
    }
}

proof fn lemma_without_redundant_sound(cs: Seq<GroupView>, k: nat)
    requires
        all_sound(cs, k),
    ensures
        all_sound(without_redundant(cs), k),
    decreases cs.len(),
{
    if cs.len() > 0 {
        assert(all_sound(cs.drop_last(), k)) by {
            assert forall|i: int| 0 <= i < cs.drop_last().len() implies #[trigger] sound_group(
                cs.drop_last()[i],
                k,
            ) by {
                assert(sound_group(cs[i], k));
            }
        }
        lemma_without_redundant_sound(cs.drop_last(), k);
        assert(sound_group(cs[cs.len() - 1], k));
    }
}

/// Every group that `find_common_prefix` returns counts exactly its files,
/// has at least `min_occurrences` of them, and lists no file twice.
pub proof fn lemma_common_prefixes_sound(files: Seq<Seq<char>>, o: PrefixOptions)
    ensures
        forall|i: int|
            0 <= i < common_prefixes(files, o).len() ==> {
                let g = #[trigger] common_prefixes(files, o)[i];
                &&& g.occurrences == g.files.len()
                &&& g.files.len() >= o.min_occurrences
                &&& g.files.no_duplicates()
            },
{
    let k = o.min_occurrences as nat;
    lemma_delimited_groups_sound(files, mode_delimiters(o.mode));
    lemma_frequent_sound(delimited_groups(files, mode_delimiters(o.mode)), k);
    let ds = kept_delimited(files, o);
    lemma_free_groups_sound(files, o.mode);
    lemma_surviving_sound(free_groups(files, o.mode), ds, k);
    let fs = surviving(free_groups(files, o.mode), ds, k);
    lemma_sorted_sound(fs, false, k);
    lemma_sorted_sound(sorted_desc(fs, false), true, k);
    lemma_without_redundant_sound(sorted_desc(sorted_desc(fs, false), true), k);
    let wf = kept_free(files, o);
    let all = ds + wf;
    assert(all_sound(all, k)) by {
        assert forall|i: int| 0 <= i < all.len() implies #[trigger] sound_group(all[i], k) by {
            if i < ds.len() {
                assert(sound_group(ds[i], k));
            } else {
                assert(sound_group(wf[i - ds.len()], k));
            }
        }
    }
    lemma_sorted_sound(all, false, k);
    assert forall|i: int| 0 <= i < common_prefixes(files, o).len() implies {
        let g = #[trigger] common_prefixes(files, o)[i];
        &&& g.occurrences == g.files.len()
        &&& g.files.len() >= o.min_occurrences
        &&& g.files.no_duplicates()
    } by {
        assert(sound_group(common_prefixes(files, o)[i], k));
    }
}


proof fn lemma_insert_pos_bounds(s: Seq<GroupView>, kx: nat, by_len: bool, i: int)
    requires
        0 <= i <= s.len(),
    ensures
        i <= insert_pos(s, kx, by_len, i) <= s.len(),
        forall|m: int| i <= m < insert_pos(s, kx, by_len, i) ==> sort_key(s[m], by_len) >= kx,
        insert_pos(s, kx, by_len, i) < s.len() ==> sort_key(
            s[insert_pos(s, kx, by_len, i)],
            by_len,
        ) < kx,
    decreases s.len() - i,
{
    if i < s.len() && sort_key(s[i], by_len) >= kx {
        lemma_insert_pos_bounds(s, kx, by_len, i + 1);
    }
}

/// The keys never increase along the sequence.
pub open spec fn keys_descending(s: Seq<GroupView>, by_len: bool) -> bool {
    forall|a: int, b: int|
        0 <= a < b < s.len() ==> sort_key(s[a], by_len) >= sort_key(s[b], by_len)
}

/// `sorted_desc` does order by decreasing key, and keeps the length.
pub proof fn lemma_sorted_desc_ordered(s: Seq<GroupView>, by_len: bool)
    ensures
        keys_descending(sorted_desc(s, by_len), by_len),
        sorted_desc(s, by_len).len() == s.len(),
    decreases s.len(),
{
    if s.len() > 0 {
        lemma_sorted_desc_ordered(s.drop_last(), by_len);
        let r = sorted_desc(s.drop_last(), by_len);
        let x = s.last();
        let k = sort_key(x, by_len);
        let p = insert_pos(r, k, by_len, 0);
        lemma_insert_pos_bounds(r, k, by_len, 0);
        let t = r.insert(p, x);
        assert forall|a: int, b: int| 0 <= a < b < t.len() implies sort_key(t[a], by_len)
            >= sort_key(t[b], by_len) by {
            if b < p {
                assert(t[a] == r[a] && t[b] == r[b]);
            } else if b == p {
                assert(t[a] == r[a]);
            } else if a < p {
                assert(t[a] == r[a] && t[b] == r[b - 1]);
                assert(sort_key(r[a], by_len) >= k);
                assert(sort_key(r[p], by_len) < k);
                if b - 1 > p {
                    assert(sort_key(r[p], by_len) >= sort_key(r[b - 1], by_len));
                }
            } else if a == p {
                assert(t[b] == r[b - 1]);
                assert(sort_key(r[p], by_len) < k);
                if b - 1 > p {
                    assert(sort_key(r[p], by_len) >= sort_key(r[b - 1], by_len));
                }
            } else {
                assert(t[a] == r[a - 1] && t[b] == r[b - 1]);
            }
        }
    }
}

/// The groups of `find_common_prefix` come by decreasing number of files.
pub proof fn lemma_common_prefixes_by_count(files: Seq<Seq<char>>, o: PrefixOptions)
    ensures
        forall|a: int, b: int|
            0 <= a < b < common_prefixes(files, o).len() ==> common_prefixes(files, o)[a].occurrences
                >= common_prefixes(files, o)[b].occurrences,
{
    let all = kept_delimited(files, o) + kept_free(files, o);
    lemma_sorted_desc_ordered(all, false);
    assert forall|a: int, b: int| 0 <= a < b < common_prefixes(files, o).len() implies common_prefixes(
        files,
        o,
    )[a].occurrences >= common_prefixes(files, o)[b].occurrences by {
        assert(sort_key(sorted_desc(all, false)[a], false) >= sort_key(
            sorted_desc(all, false)[b],
            false,
        ));
    }
}


proof fn lemma_without_redundant_members(cs: Seq<GroupView>)
    ensures
        forall|j: int|
            0 <= j < without_redundant(cs).len() ==> cs.contains(#[trigger] without_redundant(cs)[j]),
    decreases cs.len(),
{
    if cs.len() > 0 {
        let init = cs.drop_last();
        lemma_without_redundant_members(init);
        let w0 = without_redundant(init);
        let w = without_redundant(cs);
        assert forall|j: int| 0 <= j < w.len() implies cs.contains(#[trigger] w[j]) by {
            if j < w0.len() {
                assert(w[j] == w0[j]);
                assert(init.contains(w0[j]));
                let k = choose|k: int| 0 <= k < init.len() && init[k] == w0[j];
                assert(cs[k] == init[k]);
            } else {
                assert(w[j] == cs[cs.len() - 1]);
            }
        }
    }
}

proof fn lemma_without_redundant_no_extension(cs: Seq<GroupView>)
    ensures
        forall|a: int, b: int|
            0 <= a < b < without_redundant(cs).len() ==> !extends(
                #[trigger] without_redundant(cs)[a],
                #[trigger] without_redundant(cs)[b],
            ),
    decreases cs.len(),
{
    if cs.len() > 0 {
        let init = cs.drop_last();
        lemma_without_redundant_no_extension(init);
        let w0 = without_redundant(init);
        let w = without_redundant(cs);
        assert forall|a: int, b: int| 0 <= a < b < w.len() implies !extends(
            #[trigger] w[a],
            #[trigger] w[b],
        ) by {
            assert(w[a] == w0[a]);
            if b < w0.len() {
                assert(w[b] == w0[b]);
            } else {
                assert(w[b] == cs.last());
                assert(!extends(w0[a], cs.last()));
            }
        }
    }
}

proof fn lemma_without_redundant_ordered(cs: Seq<GroupView>)
    requires
        keys_descending(cs, true),
    ensures
        keys_descending(without_redundant(cs), true),
    decreases cs.len(),
{
    if cs.len() > 0 {
        let init = cs.drop_last();
        assert(keys_descending(init, true)) by {
            assert forall|a: int, b: int| 0 <= a < b < init.len() implies sort_key(init[a], true)
                >= sort_key(init[b], true) by {
                assert(init[a] == cs[a] && init[b] == cs[b]);
            }
        }
        lemma_without_redundant_ordered(init);
        lemma_without_redundant_members(init);
        let w0 = without_redundant(init);
        let w = without_redundant(cs);
        assert forall|a: int, b: int| 0 <= a < b < w.len() implies sort_key(w[a], true) >= sort_key(
            w[b],
            true,
        ) by {
            assert(w[a] == w0[a]);
            if b < w0.len() {
                assert(w[b] == w0[b]);
            } else {
                assert(init.contains(w0[a]));
                let k = choose|k: int| 0 <= k < init.len() && init[k] == w0[a];
                assert(cs[k] == init[k]);
                assert(w[b] == cs[cs.len() - 1]);
            }
        }
    }
}

/// Among the free-form groups that survive, none is extended by one with a
/// longer prefix: a longer prefix that begins with a shorter one and holds
/// all of its files has made the shorter one redundant.
pub proof fn lemma_kept_free_not_redundant(files: Seq<Seq<char>>, o: PrefixOptions)
    ensures
        forall|a: int, b: int|
            0 <= a < kept_free(files, o).len() && 0 <= b < kept_free(files, o).len()
                && kept_free(files, o)[a].prefix.len() > kept_free(files, o)[b].prefix.len() ==> !extends(
                #[trigger] kept_free(files, o)[a],
                #[trigger] kept_free(files, o)[b],
            ),
{
    let fs = surviving(free_groups(files, o.mode), kept_delimited(files, o), o.min_occurrences as nat);
    let by_len = sorted_desc(sorted_desc(fs, false), true);
    lemma_sorted_desc_ordered(sorted_desc(fs, false), true);
    lemma_without_redundant_ordered(by_len);
    lemma_without_redundant_no_extension(by_len);
    let w = kept_free(files, o);
    assert forall|a: int, b: int|
        0 <= a < w.len() && 0 <= b < w.len() && w[a].prefix.len() > w[b].prefix.len() implies !extends(
        #[trigger] w[a],
        #[trigger] w[b],
    ) by {
        if b < a {
            assert(sort_key(w[b], true) >= sort_key(w[a], true));
        }
    }
}


/// No two groups share a key.
pub open spec fn keys_distinct(gs: Seq<GroupView>) -> bool {
    forall|a: int, b: int|
        0 <= a < gs.len() && 0 <= b < gs.len() && a != b ==> !same_key(
            #[trigger] gs[a],
            gs[b].prefix,
            gs[b].delimiter,
        ) || !same_key(gs[a], #[trigger] gs[b].prefix, gs[b].delimiter)
}

proof fn lemma_key_index_absent(
    gs: Seq<GroupView>,
    p: Seq<char>,
    d: Option<(Seq<char>, Seq<char>)>,
    n: int,
)
    requires
        0 <= n <= gs.len(),
        key_index(gs, p, d, n) < 0,
    ensures
        forall|i: int| 0 <= i < n ==> !same_key(#[trigger] gs[i], p, d),
    decreases n,
{
    if n > 0 {
        lemma_key_index_absent(gs, p, d, n - 1);
    }
}

proof fn lemma_add_hit_effect(
    gs: Seq<GroupView>,
    p: Seq<char>,
    d: Option<(Seq<char>, Seq<char>)>,
    f: Seq<char>,
)
    requires
        keys_distinct(gs),
    ensures
        ({
            let r = add_hit(gs, p, d, f);
            &&& keys_distinct(r)
            &&& gs.len() <= r.len() <= gs.len() + 1
            &&& forall|i: int|
                0 <= i < gs.len() ==> (#[trigger] r[i]).prefix == gs[i].prefix && r[i].delimiter
                    == gs[i].delimiter
            &&& forall|i: int, y: Seq<char>|
                0 <= i < r.len() ==> (#[trigger] r[i].files.contains(y) <==> ((i < gs.len()
                    && gs[i].files.contains(y)) || (y == f && same_key(r[i], p, d))))
            &&& forall|i: int| gs.len() <= i < r.len() ==> same_key(#[trigger] r[i], p, d)
            &&& exists|i: int| 0 <= i < r.len() && same_key(#[trigger] r[i], p, d)
        }),
{
    let r = add_hit(gs, p, d, f);
    let k = key_index(gs, p, d, gs.len() as int);
    lemma_key_index(gs, p, d, gs.len() as int);
    if k < 0 {
        lemma_key_index_absent(gs, p, d, gs.len() as int);
        let n = gs.len() as int;
        assert(r[n].files =~= seq![f]);
        assert forall|i: int, y: Seq<char>| 0 <= i < r.len() implies (#[trigger] r[i].files.contains(y) <==> ((i < gs.len() && gs[i].files.contains(y)) || (y == f && same_key(r[i], p, d)))) by {
            if i < n {
                assert(r[i] == gs[i]);
                assert(!same_key(gs[i], p, d));
            } else {
                if y == f {
                    assert(r[i].files[0] == f);
                }
            }
        }
        assert(same_key(r[n], p, d));
    } else {
        assert forall|i: int, y: Seq<char>| 0 <= i < r.len() implies (#[trigger] r[i].files.contains(y) <==> ((i < gs.len() && gs[i].files.contains(y)) || (y == f && same_key(r[i], p, d)))) by {
            if i != k {
                assert(r[i] == gs[i]);
                assert(!same_key(gs[i], p, d)) by {
                    assert(same_key(gs[k], p, d));
                }
            } else if !gs[k].files.contains(f) {
                let fs = gs[k].files;
                if fs.push(f).contains(y) {
                    let j = choose|j: int| 0 <= j < fs.push(f).len() && fs.push(f)[j] == y;
                    if j < fs.len() {
                        assert(fs[j] == y);
                    }
                }
                if fs.contains(y) {
                    let j = choose|j: int| 0 <= j < fs.len() && fs[j] == y;
                    assert(fs.push(f)[j] == y);
                }
                if y == f {
                    assert(fs.push(f)[fs.len() as int] == f);
                }
            }
        }
        assert(same_key(r[k], p, d));
    }
    assert(keys_distinct(r)) by {
        assert forall|a: int, b: int|
            0 <= a < r.len() && 0 <= b < r.len() && a != b implies !same_key(
            #[trigger] r[a],
            r[b].prefix,
            r[b].delimiter,
        ) || !same_key(r[a], #[trigger] r[b].prefix, r[b].delimiter) by {
            if a < gs.len() && b < gs.len() {
                assert(r[a].prefix == gs[a].prefix && r[a].delimiter == gs[a].delimiter);
                assert(r[b].prefix == gs[b].prefix && r[b].delimiter == gs[b].delimiter);
            } else if a >= gs.len() {
                lemma_key_index_absent(gs, p, d, gs.len() as int);
                assert(!same_key(gs[b], p, d));
            } else {
                lemma_key_index_absent(gs, p, d, gs.len() as int);
                assert(!same_key(gs[a], p, d));
            }
        }
    }
}


proof fn lemma_scan_free_effect(gs: Seq<GroupView>, f: Seq<char>, ps: Seq<Seq<char>>)
    requires
        keys_distinct(gs),
    ensures
        ({
            let r = scan_free(gs, f, ps);
            &&& keys_distinct(r)
            &&& gs.len() <= r.len()
            &&& forall|i: int|
                0 <= i < gs.len() ==> (#[trigger] r[i]).prefix == gs[i].prefix && r[i].delimiter
                    == gs[i].delimiter
            &&& forall|i: int, y: Seq<char>|
                0 <= i < r.len() ==> (#[trigger] r[i].files.contains(y) <==> ((i < gs.len()
                    && gs[i].files.contains(y)) || (y == f && r[i].delimiter is None
                    && ps.contains(r[i].prefix))))
            &&& forall|i: int|
                gs.len() <= i < r.len() ==> (#[trigger] r[i]).delimiter is None && ps.contains(
                    r[i].prefix,
                )
            &&& forall|p: Seq<char>|
                ps.contains(p) ==> exists|i: int| 0 <= i < r.len() && same_key(#[trigger] r[i], p, None)
        }),
    decreases ps.len(),
{
    let r = scan_free(gs, f, ps);
    if ps.len() == 0 {
        assert forall|i: int, y: Seq<char>| 0 <= i < r.len() implies (#[trigger] r[i].files.contains(y) <==> ((i < gs.len()
                    && gs[i].files.contains(y)) || (y == f && r[i].delimiter is None
                    && ps.contains(r[i].prefix)))) by {
            assert(!ps.contains(r[i].prefix));
        }
    } else {
        let init = ps.drop_last();
        let last = ps.last();
        lemma_scan_free_effect(gs, f, init);
        let r0 = scan_free(gs, f, init);
        lemma_add_hit_effect(r0, last, None, f);
        assert forall|x: Seq<char>| ps.contains(x) <==> (init.contains(x) || x == last) by {
            if ps.contains(x) {
                let j = choose|j: int| 0 <= j < ps.len() && ps[j] == x;
                if j < init.len() {
                    assert(init[j] == x);
                }
            }
            if init.contains(x) {
                let j = choose|j: int| 0 <= j < init.len() && init[j] == x;
                assert(ps[j] == x);
            }
            if x == last {
                assert(ps[ps.len() - 1] == x);
            }
        }
        assert forall|i: int, y: Seq<char>| 0 <= i < r.len() implies (#[trigger] r[i].files.contains(y) <==> ((i < gs.len()
                    && gs[i].files.contains(y)) || (y == f && r[i].delimiter is None
                    && ps.contains(r[i].prefix)))) by {
            assert(r[i].files.contains(y) <==> ((i < r0.len() && r0[i].files.contains(y)) || (y == f
                && same_key(r[i], last, None))));
            if i < r0.len() {
                assert(r0[i].files.contains(y) <==> ((i < gs.len() && gs[i].files.contains(y)) || (y
                    == f && r0[i].delimiter is None && init.contains(r0[i].prefix))));
            }
        }
        assert forall|i: int| gs.len() <= i < r.len() implies (#[trigger] r[i]).delimiter is None
            && ps.contains(r[i].prefix) by {
            if i < r0.len() {
                assert(r0[i].delimiter is None && init.contains(r0[i].prefix));
            } else {
                assert(same_key(r[i], last, None));
            }
        }
        assert forall|p: Seq<char>| ps.contains(p) implies exists|i: int|
            0 <= i < r.len() && same_key(#[trigger] r[i], p, None) by {
            if init.contains(p) {
                let i = choose|i: int| 0 <= i < r0.len() && same_key(#[trigger] r0[i], p, None);
                assert(same_key(r[i], p, None));
            }
        }
    }
}

/// The free-form keys of file `y` include `p`.
pub open spec fn carries_free(y: Seq<char>, p: Seq<char>, mode: PrefixMode) -> bool {
    free_hits(y, mode).contains(p)
}

/// The free-form groups are exactly the prefixes that some listed file
/// carries, each once, and each holds exactly the listed files that carry it.
pub proof fn lemma_free_groups_exact(files: Seq<Seq<char>>, mode: PrefixMode)
    ensures
        keys_distinct(free_groups(files, mode)),
        forall|i: int|
            0 <= i < free_groups(files, mode).len() ==> (#[trigger] free_groups(files, mode)[i]).delimiter is None,
        forall|i: int, y: Seq<char>|
            0 <= i < free_groups(files, mode).len() ==> (#[trigger] free_groups(files, mode)[i].files.contains(y)
                <==> (files.contains(y) && carries_free(y, free_groups(files, mode)[i].prefix, mode))),
        forall|y: Seq<char>, p: Seq<char>|
            files.contains(y) && #[trigger] carries_free(y, p, mode) ==> exists|i: int|
                0 <= i < free_groups(files, mode).len() && same_key(
                    #[trigger] free_groups(files, mode)[i],
                    p,
                    None,
                ),
    decreases files.len(),
{
    let g = free_groups(files, mode);
    if files.len() == 0 {
        assert forall|y: Seq<char>, p: Seq<char>| files.contains(y) && #[trigger] carries_free(y, p, mode) implies exists|i: int|
                0 <= i < g.len() && same_key(#[trigger] g[i], p, None) by {
            assert(!files.contains(y));
        }
    } else {
        let init = files.drop_last();
        let fl = files.last();
        lemma_free_groups_exact(init, mode);
        let g0 = free_groups(init, mode);
        let hs = free_hits(fl, mode);
        lemma_scan_free_effect(g0, fl, hs);
        assert forall|y: Seq<char>| files.contains(y) <==> (init.contains(y) || y == fl) by {
            if files.contains(y) {
                let j = choose|j: int| 0 <= j < files.len() && files[j] == y;
                if j < init.len() {
                    assert(init[j] == y);
                }
            }
            if init.contains(y) {
                let j = choose|j: int| 0 <= j < init.len() && init[j] == y;
                assert(files[j] == y);
            }
            if y == fl {
                assert(files[files.len() - 1] == y);
            }
        }
        assert forall|i: int| 0 <= i < g.len() implies (#[trigger] g[i]).delimiter is None by {
            if i < g0.len() {
                assert(g0[i].delimiter is None);
            }
        }
        assert forall|i: int, y: Seq<char>| 0 <= i < g.len() implies (#[trigger] g[i].files.contains(y)
            <==> (files.contains(y) && carries_free(y, g[i].prefix, mode))) by {
            if i < g0.len() {
                assert(g0[i].files.contains(y) <==> (init.contains(y) && carries_free(y, g0[i].prefix, mode)));
            } else {
                if init.contains(y) && carries_free(y, g[i].prefix, mode) {
                    let j = choose|j: int| 0 <= j < g0.len() && same_key(#[trigger] g0[j], g[i].prefix, None);
                    assert(same_key(g[j], g[i].prefix, g[i].delimiter));
                    assert(false);
                }
            }
        }
        assert forall|y: Seq<char>, p: Seq<char>| files.contains(y) && #[trigger] carries_free(y, p, mode) implies exists|i: int|
                0 <= i < g.len() && same_key(#[trigger] g[i], p, None) by {
            if init.contains(y) {
                let j = choose|j: int| 0 <= j < g0.len() && same_key(#[trigger] g0[j], p, None);
                assert(same_key(g[j], p, None));
            } else {
                assert(hs.contains(p));
            }
        }
    }
}


/// File `y` yields prefix `p` between the markers of `d`, one of `pairs`.
pub open spec fn carries_delimited(
    y: Seq<char>,
    p: Seq<char>,
    d: Option<(Seq<char>, Seq<char>)>,
    pairs: Seq<(Seq<char>, Seq<char>)>,
) -> bool {
    match d {
        Some(pair) => pairs.contains(pair) && delimited_prefix(y, pair.0, pair.1) == Some(p),
        None => false,
    }
}

proof fn lemma_scan_pairs_effect(
    gs: Seq<GroupView>,
    f: Seq<char>,
    pairs: Seq<(Seq<char>, Seq<char>)>,
)
    requires
        keys_distinct(gs),
    ensures
        ({
            let r = scan_pairs(gs, f, pairs);
            &&& keys_distinct(r)
            &&& gs.len() <= r.len()
            &&& forall|i: int|
                0 <= i < gs.len() ==> (#[trigger] r[i]).prefix == gs[i].prefix && r[i].delimiter
                    == gs[i].delimiter
            &&& forall|i: int, y: Seq<char>|
                0 <= i < r.len() ==> (#[trigger] r[i].files.contains(y) <==> ((i < gs.len()
                    && gs[i].files.contains(y)) || (y == f && carries_delimited(
                    f,
                    r[i].prefix,
                    r[i].delimiter,
                    pairs,
                ))))
            &&& forall|i: int|
                gs.len() <= i < r.len() ==> carries_delimited(
                    f,
                    (#[trigger] r[i]).prefix,
                    r[i].delimiter,
                    pairs,
                )
            &&& forall|p: Seq<char>, d: Option<(Seq<char>, Seq<char>)>|
                #[trigger] carries_delimited(f, p, d, pairs) ==> exists|i: int|
                    0 <= i < r.len() && same_key(#[trigger] r[i], p, d)
        }),
    decreases pairs.len(),
{
    let r = scan_pairs(gs, f, pairs);
    if pairs.len() == 0 {
        assert forall|p: Seq<char>, d: Option<(Seq<char>, Seq<char>)>|
            #[trigger] carries_delimited(f, p, d, pairs) implies exists|i: int|
                0 <= i < r.len() && same_key(#[trigger] r[i], p, d) by {
            assert(!pairs.contains(d->0));
        }
        assert forall|i: int, y: Seq<char>| 0 <= i < r.len() implies (#[trigger] r[i].files.contains(
            y,
        ) <==> ((i < gs.len() && gs[i].files.contains(y)) || (y == f && carries_delimited(
            f,
            r[i].prefix,
            r[i].delimiter,
            pairs,
        )))) by {
            if r[i].delimiter is Some {
                assert(!pairs.contains(r[i].delimiter->0));
            }
        }
    } else {
        let init = pairs.drop_last();
        let last = pairs.last();
        lemma_scan_pairs_effect(gs, f, init);
        let r0 = scan_pairs(gs, f, init);
        assert forall|x: (Seq<char>, Seq<char>)| pairs.contains(x) <==> (init.contains(x) || x
            == last) by {
            if pairs.contains(x) {
                let j = choose|j: int| 0 <= j < pairs.len() && pairs[j] == x;
                if j < init.len() {
                    assert(init[j] == x);
                }
            }
            if init.contains(x) {
                let j = choose|j: int| 0 <= j < init.len() && init[j] == x;
                assert(pairs[j] == x);
            }
            if x == last {
                assert(pairs[pairs.len() - 1] == x);
            }
        }
        assert forall|y: Seq<char>, p: Seq<char>, d: Option<(Seq<char>, Seq<char>)>|
            #[trigger] carries_delimited(y, p, d, pairs) <==> (carries_delimited(y, p, d, init) || (d
                == Some(last) && delimited_prefix(y, last.0, last.1) == Some(p))) by {}
        match delimited_prefix(f, last.0, last.1) {
            None => {
                assert forall|i: int, y: Seq<char>| 0 <= i < r.len() implies (
                #[trigger] r[i].files.contains(y) <==> ((i < gs.len() && gs[i].files.contains(y))
                    || (y == f && carries_delimited(f, r[i].prefix, r[i].delimiter, pairs)))) by {
                    assert(r0[i].files.contains(y) <==> ((i < gs.len() && gs[i].files.contains(y))
                        || (y == f && carries_delimited(f, r0[i].prefix, r0[i].delimiter, init))));
                }
                assert forall|i: int| gs.len() <= i < r.len() implies carries_delimited(
                    f,
                    (#[trigger] r[i]).prefix,
                    r[i].delimiter,
                    pairs,
                ) by {
                    assert(carries_delimited(f, r0[i].prefix, r0[i].delimiter, init));
                }
                assert forall|p: Seq<char>, d: Option<(Seq<char>, Seq<char>)>|
                    #[trigger] carries_delimited(f, p, d, pairs) implies exists|i: int|
                        0 <= i < r.len() && same_key(#[trigger] r[i], p, d) by {
                    assert(carries_delimited(f, p, d, init));
                }
            },
            Some(q) => {
                lemma_add_hit_effect(r0, q, Some(last), f);
                assert forall|i: int, y: Seq<char>| 0 <= i < r.len() implies (
                #[trigger] r[i].files.contains(y) <==> ((i < gs.len() && gs[i].files.contains(y))
                    || (y == f && carries_delimited(f, r[i].prefix, r[i].delimiter, pairs)))) by {
                    assert(r[i].files.contains(y) <==> ((i < r0.len() && r0[i].files.contains(y))
                        || (y == f && same_key(r[i], q, Some(last)))));
                    if i < r0.len() {
                        assert(r0[i].files.contains(y) <==> ((i < gs.len() && gs[i].files.contains(
                            y,
                        )) || (y == f && carries_delimited(
                            f,
                            r0[i].prefix,
                            r0[i].delimiter,
                            init,
                        ))));
                    }
                }
                assert forall|i: int| gs.len() <= i < r.len() implies carries_delimited(
                    f,
                    (#[trigger] r[i]).prefix,
                    r[i].delimiter,
                    pairs,
                ) by {
                    if i < r0.len() {
                        assert(carries_delimited(f, r0[i].prefix, r0[i].delimiter, init));
                    } else {
                        assert(same_key(r[i], q, Some(last)));
                    }
                }
                assert forall|p: Seq<char>, d: Option<(Seq<char>, Seq<char>)>|
                    #[trigger] carries_delimited(f, p, d, pairs) implies exists|i: int|
                        0 <= i < r.len() && same_key(#[trigger] r[i], p, d) by {
                    if carries_delimited(f, p, d, init) {
                        let i = choose|i: int| 0 <= i < r0.len() && same_key(#[trigger] r0[i], p, d);
                        assert(same_key(r[i], p, d));
                    }
                }
            },
        }
    }
}

/// The delimited groups are exactly the (prefix, pair) keys that some listed
/// file yields, each once, and each holds exactly the listed files that
/// yield it.
pub proof fn lemma_delimited_groups_exact(
    files: Seq<Seq<char>>,
    pairs: Seq<(Seq<char>, Seq<char>)>,
)
    ensures
        keys_distinct(delimited_groups(files, pairs)),
        forall|i: int|
            0 <= i < delimited_groups(files, pairs).len() ==> (#[trigger] delimited_groups(
                files,
                pairs,
            )[i]).delimiter is Some,
        forall|i: int, y: Seq<char>|
            0 <= i < delimited_groups(files, pairs).len() ==> (
            #[trigger] delimited_groups(files, pairs)[i].files.contains(y) <==> (files.contains(y)
                && carries_delimited(
                y,
                delimited_groups(files, pairs)[i].prefix,
                delimited_groups(files, pairs)[i].delimiter,
                pairs,
            ))),
        forall|y: Seq<char>, p: Seq<char>, d: Option<(Seq<char>, Seq<char>)>|
            files.contains(y) && #[trigger] carries_delimited(y, p, d, pairs) ==> exists|i: int|
                0 <= i < delimited_groups(files, pairs).len() && same_key(
                    #[trigger] delimited_groups(files, pairs)[i],
                    p,
                    d,
                ),
    decreases files.len(),
{
    let g = delimited_groups(files, pairs);
    if files.len() == 0 {
        assert forall|y: Seq<char>, p: Seq<char>, d: Option<(Seq<char>, Seq<char>)>|
            files.contains(y) && #[trigger] carries_delimited(y, p, d, pairs) implies exists|i: int|
                0 <= i < g.len() && same_key(#[trigger] g[i], p, d) by {
            assert(!files.contains(y));
        }
    } else {
        let init = files.drop_last();
        let fl = files.last();
        lemma_delimited_groups_exact(init, pairs);
        let g0 = delimited_groups(init, pairs);
        lemma_scan_pairs_effect(g0, fl, pairs);
        assert forall|y: Seq<char>| files.contains(y) <==> (init.contains(y) || y == fl) by {
            if files.contains(y) {
                let j = choose|j: int| 0 <= j < files.len() && files[j] == y;
                if j < init.len() {
                    assert(init[j] == y);
                }
            }
            if init.contains(y) {
                let j = choose|j: int| 0 <= j < init.len() && init[j] == y;
                assert(files[j] == y);
            }
            if y == fl {
                assert(files[files.len() - 1] == y);
            }
        }
        assert forall|i: int| 0 <= i < g.len() implies (#[trigger] g[i]).delimiter is Some by {
            if i < g0.len() {
                assert(g0[i].delimiter is Some);
            } else {
                assert(carries_delimited(fl, g[i].prefix, g[i].delimiter, pairs));
            }
        }
        assert forall|i: int, y: Seq<char>| 0 <= i < g.len() implies (
        #[trigger] g[i].files.contains(y) <==> (files.contains(y) && carries_delimited(
            y,
            g[i].prefix,
            g[i].delimiter,
            pairs,
        ))) by {
            if i < g0.len() {
                assert(g0[i].files.contains(y) <==> (init.contains(y) && carries_delimited(
                    y,
                    g0[i].prefix,
                    g0[i].delimiter,
                    pairs,
                )));
            } else {
                if init.contains(y) && carries_delimited(y, g[i].prefix, g[i].delimiter, pairs) {
                    let j = choose|j: int|
                        0 <= j < g0.len() && same_key(#[trigger] g0[j], g[i].prefix, g[i].delimiter);
                    assert(same_key(g[j], g[i].prefix, g[i].delimiter));
                    assert(false);
                }
            }
        }
        assert forall|y: Seq<char>, p: Seq<char>, d: Option<(Seq<char>, Seq<char>)>|
            files.contains(y) && #[trigger] carries_delimited(y, p, d, pairs) implies exists|i: int|
                0 <= i < g.len() && same_key(#[trigger] g[i], p, d) by {
            if init.contains(y) {
                let j = choose|j: int| 0 <= j < g0.len() && same_key(#[trigger] g0[j], p, d);
                assert(same_key(g[j], p, d));
            }
        }
    }
}


proof fn lemma_frequent_members(gs: Seq<GroupView>, k: nat)
    ensures
        forall|j: int| 0 <= j < frequent(gs, k).len() ==> gs.contains(#[trigger] frequent(gs, k)[j]),
    decreases gs.len(),
{
    if gs.len() > 0 {
        let init = gs.drop_last();
        lemma_frequent_members(init, k);
        let r0 = frequent(init, k);
        let r = frequent(gs, k);
        assert forall|j: int| 0 <= j < r.len() implies gs.contains(#[trigger] r[j]) by {
            if j < r0.len() {
                assert(r[j] == r0[j]);
                let m = choose|m: int| 0 <= m < init.len() && init[m] == r0[j];
                assert(gs[m] == init[m]);
            } else {
                assert(r[j] == gs[gs.len() - 1]);
            }
        }
    }
}

proof fn lemma_surviving_members(gs: Seq<GroupView>, ds: Seq<GroupView>, k: nat)
    ensures
        forall|j: int|
            0 <= j < surviving(gs, ds, k).len() ==> gs.contains(#[trigger] surviving(gs, ds, k)[j]),
    decreases gs.len(),
{
    if gs.len() > 0 {
        let init = gs.drop_last();
        lemma_surviving_members(init, ds, k);
        let r0 = surviving(init, ds, k);
        let r = surviving(gs, ds, k);
        assert forall|j: int| 0 <= j < r.len() implies gs.contains(#[trigger] r[j]) by {
            if j < r0.len() {
                assert(r[j] == r0[j]);
                let m = choose|m: int| 0 <= m < init.len() && init[m] == r0[j];
                assert(gs[m] == init[m]);
            } else {
                assert(r[j] == gs[gs.len() - 1]);
            }
        }
    }
}

proof fn lemma_sorted_members(s: Seq<GroupView>, by_len: bool)
    ensures
        forall|j: int|
            0 <= j < sorted_desc(s, by_len).len() ==> s.contains(#[trigger] sorted_desc(s, by_len)[j]),
    decreases s.len(),
{
    if s.len() > 0 {
        let init = s.drop_last();
        lemma_sorted_members(init, by_len);
        let r0 = sorted_desc(init, by_len);
        let p = insert_pos(r0, sort_key(s.last(), by_len), by_len, 0);
        lemma_insert_pos_bounds(r0, sort_key(s.last(), by_len), by_len, 0);
        let r = sorted_desc(s, by_len);
        assert forall|j: int| 0 <= j < r.len() implies s.contains(#[trigger] r[j]) by {
            if j == p {
                assert(r[j] == s[s.len() - 1]);
            } else {
                let jj = if j < p {
                    j
                } else {
                    j - 1
                };
                assert(r[j] == r0[jj]);
                let m = choose|m: int| 0 <= m < init.len() && init[m] == r0[jj];
                assert(s[m] == init[m]);
            }
        }
    }
}

/// Group `g` holds exactly the listed files that carry its key: for a
/// delimited group, the files in which its pair encloses its prefix; for a
/// free-form group, the files one of whose hypotheses is its prefix.
pub open spec fn holds_its_carriers(g: GroupView, files: Seq<Seq<char>>, o: PrefixOptions) -> bool {
    forall|y: Seq<char>|
        #[trigger] g.files.contains(y) <==> (files.contains(y) && if g.delimiter is Some {
            carries_delimited(y, g.prefix, g.delimiter, mode_delimiters(o.mode))
        } else {
            carries_free(y, g.prefix, o.mode)
        })
}

/// Every group that `find_common_prefix` returns holds exactly the listed
/// files that carry its key.
pub proof fn lemma_common_prefixes_exact(files: Seq<Seq<char>>, o: PrefixOptions)
    ensures
        forall|i: int|
            0 <= i < common_prefixes(files, o).len() ==> #[trigger] holds_its_carriers(
                common_prefixes(files, o)[i],
                files,
                o,
            ),
{
    let pairs = mode_delimiters(o.mode);
    let k = o.min_occurrences as nat;
    let dg = delimited_groups(files, pairs);
    let fg = free_groups(files, o.mode);
    lemma_delimited_groups_exact(files, pairs);
    lemma_free_groups_exact(files, o.mode);
    let ds = kept_delimited(files, o);
    lemma_frequent_members(dg, k);
    let fs = surviving(fg, ds, k);
    lemma_surviving_members(fg, ds, k);
    let s1 = sorted_desc(fs, false);
    lemma_sorted_members(fs, false);
    let s2 = sorted_desc(s1, true);
    lemma_sorted_members(s1, true);
    let wf = without_redundant(s2);
    lemma_without_redundant_members(s2);
    let all = ds + wf;
    lemma_sorted_members(all, false);
    let cp = common_prefixes(files, o);
    assert forall|i: int| 0 <= i < cp.len() implies #[trigger] holds_its_carriers(cp[i], files, o) by {
        let g = cp[i];
        assert(all.contains(g));
        let a = choose|a: int| 0 <= a < all.len() && all[a] == g;
        if a < ds.len() {
            assert(ds[a] == g);
            assert(dg.contains(ds[a]));
            let b = choose|b: int| 0 <= b < dg.len() && dg[b] == ds[a];
            assert(dg[b].delimiter is Some);
            assert forall|y: Seq<char>| #[trigger] g.files.contains(y) <==> (files.contains(y)
                && carries_delimited(y, g.prefix, g.delimiter, pairs)) by {
                assert(dg[b].files.contains(y) <==> (files.contains(y) && carries_delimited(
                    y,
                    dg[b].prefix,
                    dg[b].delimiter,
                    pairs,
                )));
            }
        } else {
            let w = a - ds.len();
            assert(wf[w] == g);
            assert(s2.contains(wf[w]));
            let b2 = choose|b: int| 0 <= b < s2.len() && s2[b] == wf[w];
            assert(s1.contains(s2[b2]));
            let b1 = choose|b: int| 0 <= b < s1.len() && s1[b] == s2[b2];
            assert(fs.contains(s1[b1]));
            let b0 = choose|b: int| 0 <= b < fs.len() && fs[b] == s1[b1];
            assert(fg.contains(fs[b0]));
            let b = choose|b: int| 0 <= b < fg.len() && fg[b] == fs[b0];
            assert(fg[b].delimiter is None);
            assert forall|y: Seq<char>| #[trigger] g.files.contains(y) <==> (files.contains(y)
                && carries_free(y, g.prefix, o.mode)) by {
                assert(fg[b].files.contains(y) <==> (files.contains(y) && carries_free(
                    y,
                    fg[b].prefix,
                    o.mode,
                )));
            }
        }
    }
}


/// Two listings in strictly ascending order with the same names are the
/// same listing.
pub proof fn lemma_ascending_listing_unique(a: Seq<Seq<char>>, b: Seq<Seq<char>>)
    requires
        strictly_ascending(a),
        strictly_ascending(b),
        a.to_set() == b.to_set(),
    ensures
        a == b,
    decreases a.len(),
{
    if a.len() == 0 {
        if b.len() > 0 {
            assert(b.to_set().contains(b[0]));
        }
        assert(a =~= b);
    } else {
        assert(a.to_set().contains(a[0]));
        assert(b.len() > 0);
        assert(b.to_set().contains(b[0]));
        let j = choose|j: int| 0 <= j < b.len() && b[j] == a[0];
        let i = choose|i: int| 0 <= i < a.len() && a[i] == b[0];
        if a[0] != b[0] {
            assert(j > 0 && i > 0);
            assert(lex_less(b[0], b[j]));
            assert(lex_less(a[0], a[i]));
            lemma_lex_less_asymmetric(a[0], b[0]);
            assert(false);
        }
        let a1 = a.drop_first();
        let b1 = b.drop_first();
        assert(strictly_ascending(a1)) by {
            assert forall|x: int, y: int| 0 <= x < y < a1.len() implies lex_less(
                #[trigger] a1[x],
                #[trigger] a1[y],
            ) by {
                assert(a1[x] == a[x + 1] && a1[y] == a[y + 1]);
            }
        }
        assert(strictly_ascending(b1)) by {
            assert forall|x: int, y: int| 0 <= x < y < b1.len() implies lex_less(
                #[trigger] b1[x],
                #[trigger] b1[y],
            ) by {
                assert(b1[x] == b[x + 1] && b1[y] == b[y + 1]);
            }
        }
        assert(a1.to_set() =~= b1.to_set()) by {
            assert forall|x: Seq<char>| a1.to_set().contains(x) implies b1.to_set().contains(x) by {
                let k = choose|k: int| 0 <= k < a1.len() && a1[k] == x;
                assert(a.to_set().contains(a[k + 1]));
                let m = choose|m: int| 0 <= m < b.len() && b[m] == x;
                if m == 0 {
                    assert(lex_less(a[0], a[k + 1]));
                    lemma_lex_less_irreflexive(x);
                }
                assert(b1[m - 1] == x);
            }
            assert forall|x: Seq<char>| b1.to_set().contains(x) implies a1.to_set().contains(x) by {
                let k = choose|k: int| 0 <= k < b1.len() && b1[k] == x;
                assert(b.to_set().contains(b[k + 1]));
                let m = choose|m: int| 0 <= m < a.len() && a[m] == x;
                if m == 0 {
                    assert(lex_less(b[0], b[k + 1]));
                    lemma_lex_less_irreflexive(x);
                }
                assert(a1[m - 1] == x);
            }
        }
        lemma_ascending_listing_unique(a1, b1);
        assert(a =~= b) by {
            assert forall|x: int| 0 <= x < a.len() implies a[x] == b[x] by {
                if x > 0 {
                    assert(a[x] == a1[x - 1] && b[x] == b1[x - 1]);
                }
            }
        }
    }
}

/// For listings in the order `find_common_prefix` asks for, the groups
/// depend only on which names are listed.
pub proof fn lemma_common_prefixes_of_set(a: Seq<Seq<char>>, b: Seq<Seq<char>>, o: PrefixOptions)
    requires
        strictly_ascending(a),
        strictly_ascending(b),
        a.to_set() == b.to_set(),
    ensures
        common_prefixes(a, o) == common_prefixes(b, o),
{
    lemma_ascending_listing_unique(a, b);
}

} // verus!
