//! Choice of the best prefix groups: an advisory pattern filter, then every
//! group that shares the largest number of files.
use vstd::prelude::*;

use crate::aggregate::{common_prefixes, copy_group, copy_string, find_common_prefix, lemma_groups_push};
use crate::pattern::{compile_pattern, pattern_matches, regex_compiles, regex_is_match};
use crate::prefix_finder::{
    decorate, decorated, groups_view, lemma_strings_push, owned, prefixed_view, strings_view,
    CommonPrefix, GroupView, PrefixOptions, PrefixedPath, PrefixedPathView,
};

verus! {

/// `name` inside the directory `dir`.
pub open spec fn join_path(dir: Seq<char>, name: Seq<char>) -> Seq<char> {
    if dir.len() == 0 {
        name
    } else if dir.last() == '/' {
        dir + name
    } else {
        dir + seq!['/'] + name
    }
}

/// The prefix as a pattern filter sees it: with its markers when delimited.
pub open spec fn decorated_prefix(g: GroupView) -> Seq<char> {
    match g.delimiter {
        Some(d) => decorated(d.0, g.prefix, d.1),
        None => g.prefix,
    }
}

/// The groups whose entry in `mask` is true, in order.
pub open spec fn masked(gs: Seq<GroupView>, mask: Seq<bool>) -> Seq<GroupView>
    decreases gs.len(),
{
    if gs.len() == 0 {
        Seq::empty()
    } else {
        let r = masked(gs.drop_last(), mask);
        let i = gs.len() - 1;
        if i < mask.len() && mask[i] {
            r.push(gs.last())
        } else {
            r
        }
    }
}

/// The groups the filter lets through, or all of them when there is no
/// filter or it lets none through.
pub open spec fn candidates(gs: Seq<GroupView>, hits: Option<Seq<bool>>) -> Seq<GroupView> {
    match hits {
        Some(m) => if masked(gs, m).len() > 0 {
            masked(gs, m)
        } else {
            gs
        },
        None => gs,
    }
}

/// The largest number of files among the groups; 0 for none.
pub open spec fn max_occurrences(gs: Seq<GroupView>) -> nat
    decreases gs.len(),
{
    if gs.len() == 0 {
        0
    } else {
        let m = max_occurrences(gs.drop_last());
        if gs.last().occurrences > m {
            gs.last().occurrences
        } else {
            m
        }
    }
}

/// The groups with exactly `m` files, in order.
pub open spec fn with_occurrences(gs: Seq<GroupView>, m: nat) -> Seq<GroupView>
    decreases gs.len(),
{
    if gs.len() == 0 {
        Seq::empty()
    } else {
        let r = with_occurrences(gs.drop_last(), m);
        if gs.last().occurrences == m {
            r.push(gs.last())
        } else {
            r
        }
    }
}

pub open spec fn as_prefixed(dir: Seq<char>, g: GroupView) -> PrefixedPathView {
    PrefixedPathView { prefix: g.prefix, paths: g.files.map_values(|f: Seq<char>| join_path(dir, f)) }
}

/// Every candidate with the largest number of files, with full paths.
pub open spec fn best_prefixes(dir: Seq<char>, gs: Seq<GroupView>, hits: Option<Seq<bool>>) -> Seq<
    PrefixedPathView,
> {
    let c = candidates(gs, hits);
    with_occurrences(c, max_occurrences(c)).map_values(|g: GroupView| as_prefixed(dir, g))
}

pub open spec fn option_view(o: Option<String>) -> Option<Seq<char>> {
    match o {
        Some(s) => Some(s@),
        None => None,
    }
}

pub open spec fn mask_view(o: Option<Vec<bool>>) -> Option<Seq<bool>> {
    match o {
        Some(v) => Some(v@),
        None => None,
    }
}

/// For each group, whether the filter pattern matches its decorated prefix;
/// nothing when there is no filter or the pattern does not compile.
pub open spec fn filter_hits(gs: Seq<GroupView>, filter: Option<Seq<char>>) -> Option<Seq<bool>> {
    match filter {
        Some(p) => if regex_compiles(p) {
            Some(gs.map_values(|g: GroupView| regex_is_match(p, decorated_prefix(g))))
        } else {
            None
        },
        None => None,
    }
}

/// The best prefix groups of a directory listing under the options.
pub open spec fn longest_prefixes(dir: Seq<char>, files: Seq<Seq<char>>, o: PrefixOptions) -> Seq<
    PrefixedPathView,
> {
    let all = common_prefixes(files, o);
    best_prefixes(dir, all, filter_hits(all, option_view(o.filter_regex)))
}

/// `name` inside the directory `dir`.
pub fn join_path_exec(dir: &str, name: &String) -> (r: String)
    ensures
        r@ == join_path(dir@, name@),
{
    let n = dir.unicode_len();
    if n == 0 {
        return copy_string(name);
    }
    let mut r = owned(dir);
    if dir.get_char(n - 1) != '/' {
        proof {
            reveal_strlit("/");
        }
        r.append("/");
    }
    r.append(name.as_str());
    r
}

fn masked_groups(gs: &Vec<CommonPrefix>, mask: &Vec<bool>) -> (r: Vec<CommonPrefix>)
    ensures
        groups_view(r@) == masked(groups_view(gs@), mask@),
{
    let ghost gv = groups_view(gs@);
    let mut r: Vec<CommonPrefix> = Vec::new();
    let mut i: usize = 0;
    assert(gv.subrange(0, 0) =~= Seq::<GroupView>::empty());
    while i < gs.len()
        invariant
            gv == groups_view(gs@),
            i <= gs@.len(),
            groups_view(r@) == masked(gv.subrange(0, i as int), mask@),
        decreases gs.len() - i,
    {
        assert(gv.subrange(0, i + 1).drop_last() =~= gv.subrange(0, i as int));
        if i < mask.len() && mask[i] {
            let g = copy_group(&gs[i]);
            proof {
                lemma_groups_push(r@, g);
            }
            r.push(g);
            assert(groups_view(r@) =~= masked(gv.subrange(0, i + 1), mask@));
        }
        i += 1;
    }
    assert(gv.subrange(0, i as int) =~= gv);
    r
}

fn copy_groups(gs: &Vec<CommonPrefix>) -> (r: Vec<CommonPrefix>)
    ensures
        groups_view(r@) == groups_view(gs@),
{
    let mut r: Vec<CommonPrefix> = Vec::new();
    let mut i: usize = 0;
    while i < gs.len()
        invariant
            i <= gs@.len(),
            groups_view(r@) == groups_view(gs@).subrange(0, i as int),
        decreases gs.len() - i,
    {
        let g = copy_group(&gs[i]);
        proof {
            lemma_groups_push(r@, g);
        }
        r.push(g);
        i += 1;
        assert(groups_view(r@) =~= groups_view(gs@).subrange(0, i as int));
    }
    assert(groups_view(gs@).subrange(0, i as int) =~= groups_view(gs@));
    r
}

fn max_occurrence_count(gs: &Vec<CommonPrefix>) -> (m: usize)
    ensures
        m as nat == max_occurrences(groups_view(gs@)),
{
    let ghost gv = groups_view(gs@);
    let mut m: usize = 0;
    let mut i: usize = 0;
    assert(gv.subrange(0, 0) =~= Seq::<GroupView>::empty());
    while i < gs.len()
        invariant
            gv == groups_view(gs@),
            i <= gs@.len(),
            m as nat == max_occurrences(gv.subrange(0, i as int)),
        decreases gs.len() - i,
    {
        assert(gv.subrange(0, i + 1).drop_last() =~= gv.subrange(0, i as int));
        assert(gv[i as int] == gs@[i as int]@);
        if gs[i].occurrences > m {
            m = gs[i].occurrences;
        }
        i += 1;
    }
    assert(gv.subrange(0, i as int) =~= gv);
    m
}

fn to_prefixed(dir: &str, g: &CommonPrefix) -> (r: PrefixedPath)
    ensures
        r@ == as_prefixed(dir@, g@),
{
    let ghost fv = strings_view(g.files@);
    let mut paths: Vec<String> = Vec::new();
    let mut i: usize = 0;
    while i < g.files.len()
        invariant
            fv == strings_view(g.files@),
            i <= g.files@.len(),
            strings_view(paths@) == fv.subrange(0, i as int).map_values(
                |f: Seq<char>| join_path(dir@, f),
            ),
        decreases g.files.len() - i,
    {
        let p = join_path_exec(dir, &g.files[i]);
        proof {
            lemma_strings_push(paths@, p);
        }
        paths.push(p);
        i += 1;
        assert(strings_view(paths@) =~= fv.subrange(0, i as int).map_values(
            |f: Seq<char>| join_path(dir@, f),
        ));
    }
    assert(fv.subrange(0, i as int) =~= fv);
    let r = PrefixedPath { paths, prefix: copy_string(&g.prefix) };
    assert(r@.paths =~= as_prefixed(dir@, g@).paths);
    r
}

/// Every candidate group with the largest number of files, as full paths
/// under `directory`. The candidates are the groups whose entry in `hits` is
/// true; all groups when `hits` is `None` or no entry is true.
pub fn select_longest_prefixes(
    directory: &str,
    groups: &Vec<CommonPrefix>,
    hits: &Option<Vec<bool>>,
) -> (r: Vec<PrefixedPath>)
    ensures
        prefixed_view(r@) == best_prefixes(directory@, groups_view(groups@), mask_view(*hits)),
{
    let ghost gv = groups_view(groups@);
    let chosen = match hits {
        Some(mask) => {
            let f = masked_groups(groups, mask);
            if f.len() > 0 {
                f
            } else {
                copy_groups(groups)
            }
        },
        None => copy_groups(groups),
    };
    let ghost cv = groups_view(chosen@);
    assert(cv == candidates(gv, mask_view(*hits)));
    let m = max_occurrence_count(&chosen);
    let mut r: Vec<PrefixedPath> = Vec::new();
    let mut i: usize = 0;
    assert(cv.subrange(0, 0) =~= Seq::<GroupView>::empty());
    assert(prefixed_view(r@) =~= with_occurrences(cv.subrange(0, 0), m as nat).map_values(
        |g: GroupView| as_prefixed(directory@, g),
    ));
    while i < chosen.len()
        invariant
            cv == groups_view(chosen@),
            i <= chosen@.len(),
            prefixed_view(r@) == with_occurrences(cv.subrange(0, i as int), m as nat).map_values(
                |g: GroupView| as_prefixed(directory@, g),
            ),
        decreases chosen.len() - i,
    {
        assert(cv.subrange(0, i + 1).drop_last() =~= cv.subrange(0, i as int));
        assert(cv[i as int] == chosen@[i as int]@);
        if chosen[i].occurrences == m {
            let p = to_prefixed(directory, &chosen[i]);
            proof {
                assert(prefixed_view(r@.push(p)) =~= prefixed_view(r@).push(p@));
            }
            r.push(p);
        }
        i += 1;
        assert(prefixed_view(r@) =~= with_occurrences(cv.subrange(0, i as int), m as nat).map_values(
            |g: GroupView| as_prefixed(directory@, g),
        ));
    }
    assert(cv.subrange(0, i as int) =~= cv);
    r
}

fn decorated_text(g: &CommonPrefix) -> (r: String)
    ensures
        r@ == decorated_prefix(g@),
{
    match &g.delimiter {
        Some(d) => decorate(d.0.as_str(), g.prefix.as_str(), d.1.as_str()),
        None => copy_string(&g.prefix),
    }
}

/// For each group, whether the filter pattern matches its decorated prefix;
/// `None` when there is no filter or it does not compile.
pub fn filter_mask(groups: &Vec<CommonPrefix>, filter: &Option<String>) -> (r: Option<Vec<bool>>)
    ensures
        mask_view(r) == filter_hits(groups_view(groups@), option_view(*filter)),
{
    let pattern = match filter {
        Some(p) => p,
        None => return None,
    };
    let compiled = match compile_pattern(pattern.as_str()) {
        Some(c) => c,
        None => return None,
    };
    let ghost gv = groups_view(groups@);
    let ghost spec_mask = gv.map_values(|g: GroupView| regex_is_match(pattern@, decorated_prefix(g)));
    let mut mask: Vec<bool> = Vec::new();
    let mut i: usize = 0;
    while i < groups.len()
        invariant
            gv == groups_view(groups@),
            compiled.source() == pattern@,
            spec_mask == gv.map_values(|g: GroupView| regex_is_match(pattern@, decorated_prefix(g))),
            i <= groups@.len(),
            mask@ == spec_mask.subrange(0, i as int),
        decreases groups.len() - i,
    {
        assert(gv[i as int] == groups@[i as int]@);
        let text = decorated_text(&groups[i]);
        let hit = pattern_matches(&compiled, text.as_str());
        mask.push(hit);
        i += 1;
        assert(mask@ =~= spec_mask.subrange(0, i as int));
    }
    assert(spec_mask.subrange(0, i as int) =~= spec_mask);
    Some(mask)
}

/// The best prefix groups of a directory whose regular files are
/// `filenames` (ascending, each once): the groups of `find_common_prefix`,
/// narrowed to those whose decorated prefix the filter pattern matches
/// (unless there is no filter,
/// it does not compile, or it matches none), of which every one with the
/// largest number of files is returned, as paths under `directory`.
pub fn find_longest_prefix(directory: &str, filenames: &Vec<String>, options: &PrefixOptions) -> (r:
    Vec<PrefixedPath>)
    requires
        crate::text::strictly_ascending(strings_view(filenames@)),
    ensures
        prefixed_view(r@) == longest_prefixes(directory@, strings_view(filenames@), *options),
{
    let all = find_common_prefix(filenames, options);
    let hits = filter_mask(&all, &options.filter_regex);
    select_longest_prefixes(directory, &all, &hits)
}


proof fn lemma_max_occurrences_bound(gs: Seq<GroupView>)
    ensures
        forall|i: int| 0 <= i < gs.len() ==> #[trigger] gs[i].occurrences <= max_occurrences(gs),
    decreases gs.len(),
{
    if gs.len() > 0 {
        lemma_max_occurrences_bound(gs.drop_last());
        assert forall|i: int| 0 <= i < gs.len() implies #[trigger] gs[i].occurrences
            <= max_occurrences(gs) by {
            if i < gs.len() - 1 {
                assert(gs[i] == gs.drop_last()[i]);
            }
        }
    }
}

/// `x` is one of the groups of `gs` with exactly `m` files.
pub open spec fn is_group_with(x: GroupView, gs: Seq<GroupView>, m: nat) -> bool {
    exists|i: int| 0 <= i < gs.len() && gs[i].occurrences == m && x == #[trigger] gs[i]
}

/// `e` is the entry made from a candidate with exactly `m` files.
pub open spec fn is_entry_with(
    e: PrefixedPathView,
    dir: Seq<char>,
    cs: Seq<GroupView>,
    m: nat,
) -> bool {
    exists|i: int| 0 <= i < cs.len() && cs[i].occurrences == m && e == as_prefixed(dir, #[trigger] cs[i])
}

proof fn lemma_with_occurrences_members(gs: Seq<GroupView>, m: nat)
    ensures
        forall|j: int|
            0 <= j < with_occurrences(gs, m).len() ==> #[trigger] is_group_with(
                with_occurrences(gs, m)[j],
                gs,
                m,
            ),
        forall|i: int|
            0 <= i < gs.len() && gs[i].occurrences == m ==> with_occurrences(gs, m).contains(
                #[trigger] gs[i],
            ),
    decreases gs.len(),
{
    if gs.len() > 0 {
        let init = gs.drop_last();
        lemma_with_occurrences_members(init, m);
        let w0 = with_occurrences(init, m);
        let w = with_occurrences(gs, m);
        assert forall|j: int| 0 <= j < w.len() implies #[trigger] is_group_with(w[j], gs, m) by {
            if j < w0.len() {
                assert(w[j] == w0[j]);
                assert(is_group_with(w0[j], init, m));
                let i = choose|i: int|
                    0 <= i < init.len() && init[i].occurrences == m && w0[j] == #[trigger] init[i];
                assert(init[i] == gs[i]);
                assert(0 <= i < gs.len() && gs[i].occurrences == m && w[j] == gs[i]);
            } else {
                let i = gs.len() - 1;
                assert(w[j] == gs[i]);
                assert(0 <= i < gs.len() && gs[i].occurrences == m && w[j] == gs[i]);
            }
        }
        assert forall|i: int| 0 <= i < gs.len() && gs[i].occurrences == m implies w.contains(
            #[trigger] gs[i],
        ) by {
            if i < gs.len() - 1 {
                assert(init[i] == gs[i]);
                assert(w0.contains(init[i]));
                let j = choose|j: int| 0 <= j < w0.len() && w0[j] == init[i];
                assert(w[j] == w0[j]);
            } else {
                assert(w[w.len() - 1] == gs[i]);
            }
        }
    }
}

/// Ties are never broken: each candidate has at most the largest number of
/// files, every candidate with that number is returned, and every returned
/// entry is made from such a candidate.
pub proof fn lemma_best_prefixes_keep_ties(
    dir: Seq<char>,
    gs: Seq<GroupView>,
    hits: Option<Seq<bool>>,
)
    ensures
        forall|i: int|
            0 <= i < candidates(gs, hits).len() ==> #[trigger] candidates(gs, hits)[i].occurrences
                <= max_occurrences(candidates(gs, hits)),
        forall|i: int|
            0 <= i < candidates(gs, hits).len() && candidates(gs, hits)[i].occurrences
                == max_occurrences(candidates(gs, hits)) ==> best_prefixes(dir, gs, hits).contains(
                as_prefixed(dir, #[trigger] candidates(gs, hits)[i]),
            ),
        forall|j: int|
            0 <= j < best_prefixes(dir, gs, hits).len() ==> #[trigger] is_entry_with(
                best_prefixes(dir, gs, hits)[j],
                dir,
                candidates(gs, hits),
                max_occurrences(candidates(gs, hits)),
            ),
{
    let c = candidates(gs, hits);
    let m = max_occurrences(c);
    let w = with_occurrences(c, m);
    let b = best_prefixes(dir, gs, hits);
    lemma_max_occurrences_bound(c);
    lemma_with_occurrences_members(c, m);
    assert forall|i: int| 0 <= i < c.len() && c[i].occurrences == m implies b.contains(
        as_prefixed(dir, #[trigger] c[i]),
    ) by {
        assert(w.contains(c[i]));
        let j = choose|j: int| 0 <= j < w.len() && w[j] == c[i];
        assert(b[j] == as_prefixed(dir, w[j]));
    }
    assert forall|j: int| 0 <= j < b.len() implies #[trigger] is_entry_with(b[j], dir, c, m) by {
        assert(b[j] == as_prefixed(dir, w[j]));
        assert(is_group_with(w[j], c, m));
        let i = choose|i: int| 0 <= i < c.len() && c[i].occurrences == m && w[j] == #[trigger] c[i];
        assert(0 <= i < c.len() && c[i].occurrences == m && b[j] == as_prefixed(dir, c[i]));
    }
}

} // verus!
