//! Character-level helpers on strings, each with a specification over `Seq<char>`.
use vstd::prelude::*;
use vstd::std_specs::iter::IteratorSpec;

verus! {

/// `p` is an initial segment of `s`.
pub open spec fn has_prefix(s: Seq<char>, p: Seq<char>) -> bool {
    p.len() <= s.len() && s.subrange(0, p.len() as int) == p
}

/// `p` occurs in `s` starting at position `i`.
pub open spec fn occurs_at(s: Seq<char>, p: Seq<char>, i: int) -> bool {
    0 <= i && i + p.len() <= s.len() && s.subrange(i, i + p.len()) == p
}

/// The first position at or after `i` where `p` occurs in `s`.
pub open spec fn find_from(s: Seq<char>, p: Seq<char>, i: int) -> Option<int>
    decreases s.len() + 1 - i,
{
    if i < 0 || i + p.len() > s.len() {
        None
    } else if occurs_at(s, p, i) {
        Some(i)
    } else {
        find_from(s, p, i + 1)
    }
}

/// The code points that carry the Unicode `White_Space` property.
pub open spec fn is_white_space(c: char) -> bool {
    let u = c as u32;
    (0x9 <= u && u <= 0xd) || u == 0x20 || u == 0x85 || u == 0xa0 || u == 0x1680 || (0x2000 <= u
        && u <= 0x200a) || u == 0x2028 || u == 0x2029 || u == 0x202f || u == 0x205f || u == 0x3000
}

/// `s` without its leading white space.
pub open spec fn trim_start(s: Seq<char>) -> Seq<char>
    decreases s.len(),
{
    if s.len() > 0 && is_white_space(s[0]) {
        trim_start(s.drop_first())
    } else {
        s
    }
}

/// Same answer as `char::is_whitespace`.
pub fn is_white_space_char(c: char) -> (r: bool)
    ensures
        r == is_white_space(c),
{
    let u = c as u32;
    (0x9 <= u && u <= 0xd) || u == 0x20 || u == 0x85 || u == 0xa0 || u == 0x1680 || (0x2000 <= u
        && u <= 0x200a) || u == 0x2028 || u == 0x2029 || u == 0x202f || u == 0x205f || u == 0x3000
}

/// The characters of `s`, one per element.
pub fn chars_of(s: &str) -> (v: Vec<char>)
    ensures
        v@ == s@,
{
    broadcast use vstd::string::axiom_spec_iter, vstd::string::next_postcondition;

    let mut it = s.chars();
    let mut v: Vec<char> = Vec::new();
    loop
        invariant
            v@ + IteratorSpec::remaining(&it) == s@,
        ensures
            v@ == s@,
        decreases s@.len() - v@.len(),
    {
        let ghost before = IteratorSpec::remaining(&it);
        match it.next() {
            Some(c) => {
                v.push(c);
                assert(v@ + IteratorSpec::remaining(&it) =~= s@) by {
                    assert(before =~= seq![c] + before.drop_first());
                }
            },
            None => {
                assert(v@ =~= s@);
                break ;
            },
        }
    }
    v
}

/// Relies on `String::push`: appends one character.
#[verifier::external_body]
pub(crate) fn push_char(s: &mut String, c: char)
    ensures
        final(s)@ == old(s)@.push(c),
{
    s.push(c);
}

/// A string holding the characters of `cs`.
pub fn string_of(cs: &Vec<char>) -> (r: String)
    ensures
        r@ == cs@,
{
    let mut r = String::new();
    let mut i: usize = 0;
    while i < cs.len()
        invariant
            i <= cs@.len(),
            r@ == cs@.subrange(0, i as int),
        decreases cs.len() - i,
    {
        push_char(&mut r, cs[i]);
        i += 1;
        assert(r@ =~= cs@.subrange(0, i as int));
    }
    assert(cs@.subrange(0, i as int) =~= cs@);
    r
}

/// An owned copy of the characters `from..to` of `s`.
pub fn slice_of(s: &str, from: usize, to: usize) -> (r: String)
    requires
        from <= to <= s@.len(),
    ensures
        r@ == s@.subrange(from as int, to as int),
{
    String::from_str(s.substring_char(from, to))
}

/// Does `s` begin with `p`.
pub fn starts_with_chars(s: &Vec<char>, p: &Vec<char>) -> (r: bool)
    ensures
        r == has_prefix(s@, p@),
{
    occurs_at_pos(s, p, 0)
}

/// Does `p` occur in `s` at position `i`.
pub fn occurs_at_pos(s: &Vec<char>, p: &Vec<char>, i: usize) -> (r: bool)
    ensures
        r == occurs_at(s@, p@, i as int),
{
    if p.len() > s.len() || i > s.len() - p.len() {
        return false;
    }
    let n = s.len();
    let mut j: usize = 0;
    while j < p.len()
        invariant
            n == s@.len(),
            i + p@.len() <= s@.len(),
            j <= p@.len(),
            forall|k: int| 0 <= k < j ==> s@[i + k] == p@[k],
        decreases p.len() - j,
    {
        assert(i + j < s@.len());
        if s[i + j] != p[j] {
            assert(s@.subrange(i as int, i + p@.len())[j as int] != p@[j as int]);
            return false;
        }
        j += 1;
    }
    assert(s@.subrange(i as int, i + p@.len()) =~= p@);
    true
}

/// The first position at or after `start` where `p` occurs in `s`.
pub fn find_chars(s: &Vec<char>, p: &Vec<char>, start: usize) -> (r: Option<usize>)
    ensures
        find_from(s@, p@, start as int) == match r {
            Some(k) => Some(k as int),
            None => None::<int>,
        },
{
    if p.len() > s.len() || start > s.len() - p.len() {
        return None;
    }
    let last = s.len() - p.len();
    let mut i: usize = start;
    while i <= last
        invariant
            last == s@.len() - p@.len(),
            start <= i <= last + 1,
            find_from(s@, p@, start as int) == find_from(s@, p@, i as int),
        decreases last + 1 - i,
    {
        if occurs_at_pos(s, p, i) {
            return Some(i);
        }
        if i == last {
            assert(find_from(s@, p@, i + 1) is None);
            return None;
        }
        i += 1;
    }
    None
}

/// `s` without its leading white space, as `str::trim_start` gives it.
pub fn trim_start_of(s: &str, from: usize) -> (r: String)
    requires
        from <= s@.len(),
    ensures
        r@ == trim_start(s@.subrange(from as int, s@.len() as int)),
{
    let n = s.unicode_len();
    let mut i: usize = from;
    while i < n && is_white_space_char(s.get_char(i))
        invariant
            n == s@.len(),
            from <= i <= n,
            trim_start(s@.subrange(i as int, n as int)) == trim_start(
                s@.subrange(from as int, n as int),
            ),
        decreases n - i,
    {
        assert(s@.subrange(i as int, n as int).drop_first() =~= s@.subrange(i + 1, n as int));
        i += 1;
    }
    slice_of(s, i, n)
}

/// `s` precedes `t` in the order of their characters' code points.
pub open spec fn lex_less(s: Seq<char>, t: Seq<char>) -> bool
    decreases s.len(),
{
    if s.len() == 0 {
        t.len() > 0
    } else if t.len() == 0 {
        false
    } else if s[0] != t[0] {
        s[0] < t[0]
    } else {
        lex_less(s.drop_first(), t.drop_first())
    }
}

/// Names in strictly increasing code point order: sorted, each once.
pub open spec fn strictly_ascending(names: Seq<Seq<char>>) -> bool {
    forall|a: int, b: int| 0 <= a < b < names.len() ==> lex_less(#[trigger] names[a], #[trigger] names[b])
}

/// No name precedes itself.
pub proof fn lemma_lex_less_irreflexive(s: Seq<char>)
    ensures
        !lex_less(s, s),
    decreases s.len(),
{
    if s.len() > 0 {
        lemma_lex_less_irreflexive(s.drop_first());
    }
}

/// Of two names, at most one precedes the other.
pub proof fn lemma_lex_less_asymmetric(s: Seq<char>, t: Seq<char>)
    requires
        lex_less(s, t),
    ensures
        !lex_less(t, s),
    decreases s.len(),
{
    if s.len() > 0 && t.len() > 0 && s[0] == t[0] {
        lemma_lex_less_asymmetric(s.drop_first(), t.drop_first());
    }
}

/// Preceding is transitive.
pub proof fn lemma_lex_less_transitive(a: Seq<char>, b: Seq<char>, c: Seq<char>)
    requires
        lex_less(a, b),
        lex_less(b, c),
    ensures
        lex_less(a, c),
    decreases a.len(),
{
    if a.len() > 0 && b.len() > 0 && c.len() > 0 && a[0] == b[0] && b[0] == c[0] {
        lemma_lex_less_transitive(a.drop_first(), b.drop_first(), c.drop_first());
    }
}

/// Of two different names, one precedes the other.
pub proof fn lemma_lex_less_total(s: Seq<char>, t: Seq<char>)
    requires
        s != t,
    ensures
        lex_less(s, t) || lex_less(t, s),
    decreases s.len(),
{
    if s.len() == 0 {
        if t.len() == 0 {
            assert(s =~= t);
        }
    } else if t.len() > 0 {
        if s[0] == t[0] {
            if s.drop_first() == t.drop_first() {
                assert(s.len() == s.drop_first().len() + 1 && t.len() == t.drop_first().len() + 1);
                assert(s =~= t) by {
                    assert forall|k: int| 0 <= k < s.len() implies s[k] == t[k] by {
                        if k > 0 {
                            assert(s[k] == s.drop_first()[k - 1]);
                            assert(t[k] == t.drop_first()[k - 1]);
                        }
                    }
                }
            }
            lemma_lex_less_total(s.drop_first(), t.drop_first());
        } else {
        }
    }
}

/// Does `s` precede `t` in code point order.
pub fn lex_less_exec(s: &Vec<char>, t: &Vec<char>) -> (r: bool)
    ensures
        r == lex_less(s@, t@),
{
    let mut i: usize = 0;
    assert(s@.subrange(0, s@.len() as int) =~= s@);
    assert(t@.subrange(0, t@.len() as int) =~= t@);
    while i < s.len() && i < t.len() && s[i] == t[i]
        invariant
            i <= s@.len(),
            i <= t@.len(),
            lex_less(s@, t@) == lex_less(
                s@.subrange(i as int, s@.len() as int),
                t@.subrange(i as int, t@.len() as int),
            ),
        decreases s.len() - i,
    {
        assert(s@.subrange(i as int, s@.len() as int).drop_first() =~= s@.subrange(
            i + 1,
            s@.len() as int,
        ));
        assert(t@.subrange(i as int, t@.len() as int).drop_first() =~= t@.subrange(
            i + 1,
            t@.len() as int,
        ));
        i += 1;
    }
    if i == s.len() {
        i < t.len()
    } else if i == t.len() {
        false
    } else {
        s[i] < t[i]
    }
}

} // verus!
