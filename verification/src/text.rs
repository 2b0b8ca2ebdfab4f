//! Text: the small operations on strings that labels, routes and addresses are read with.
//!
//! A string is modelled by its sequence of characters. Every operation here is a plain function on
//! that sequence.

use vstd::prelude::*;
use vstd::string::StrSliceExecFns;

verus! {

// ---------------------------------------------------------------------------------------------
// Characters of a string
// ---------------------------------------------------------------------------------------------

/// The characters of `s`, in order.
pub fn chars_of(s: &str) -> (r: Vec<char>)
    ensures
        r@ == s@,
{
    let mut r: Vec<char> = Vec::new();
    for c in it: s.chars()
        invariant
            it.seq() == s@,
            r@ == s@.take(it.index()),
    {
        r.push(c);
        assert(s@.take(it.index() + 1) == s@.take(it.index()).push(c));
    }
    assert(s@.take(s@.len() as int) == s@);
    r
}

/// `a` and `b` hold the same characters.
pub fn equal(a: &str, b: &str) -> (r: bool)
    ensures
        r == (a@ == b@),
{
    let n: usize = a.unicode_len();
    if n != b.unicode_len() {
        return false;
    }
    assert(a@.subrange(0, a@.len() as int) == a@);
    starts_with(a, b)
}

// ---------------------------------------------------------------------------------------------
// Prefixes and suffixes
// ---------------------------------------------------------------------------------------------

/// `s` begins with `prefix`.
pub fn starts_with(s: &str, prefix: &str) -> (r: bool)
    ensures
        r == prefix@.is_prefix_of(s@),
{
    let a: Vec<char> = chars_of(s);
    let b: Vec<char> = chars_of(prefix);
    if a.len() < b.len() {
        return false;
    }
    let mut i: usize = 0;
    while i < b.len()
        invariant
            i <= b.len() <= a.len(),
            a@ == s@,
            b@ == prefix@,
            forall|j: int| 0 <= j < i ==> a@[j] == b@[j],
        decreases b.len() - i,
    {
        if a[i] != b[i] {
            return false;
        }
        i = i + 1;
    }
    assert(b@ == a@.subrange(0, b@.len() as int));
    true
}

/// `s` ends with `suffix`.
pub fn ends_with(s: &str, suffix: &str) -> (r: bool)
    ensures
        r == suffix@.is_suffix_of(s@),
{
    let n: usize = s.unicode_len();
    let m: usize = suffix.unicode_len();
    if n < m {
        return false;
    }
    equal(s.substring_char(n - m, n), suffix)
}

/// `s` without its leading characters `c`.
pub open spec fn trim_leading(s: Seq<char>, c: char) -> Seq<char>
    decreases s.len(),
{
    if s.len() > 0 && s[0] == c {
        trim_leading(s.skip(1), c)
    } else {
        s
    }
}

/// Drops every leading `c` from `s`.
pub fn trim_start_matches<'a>(s: &'a str, c: char) -> (r: &'a str)
    ensures
        r@ == trim_leading(s@, c),
{
    let v: Vec<char> = chars_of(s);
    let mut i: usize = 0;
    assert(s@.skip(0) == s@);
    while i < v.len() && v[i] == c
        invariant
            i <= v.len(),
            v@ == s@,
            trim_leading(s@, c) == trim_leading(s@.skip(i as int), c),
        decreases v.len() - i,
    {
        assert(s@.skip(i as int).skip(1) == s@.skip(i + 1));
        i = i + 1;
    }
    s.substring_char(i, v.len())
}

// ---------------------------------------------------------------------------------------------
// Cutting at a separator
// ---------------------------------------------------------------------------------------------

/// The part of `s` before the first `c`, and the part after it.
pub open spec fn cut_first(s: Seq<char>, c: char) -> Option<(Seq<char>, Seq<char>)> {
    if s.contains(c) {
        let i = s.index_of_first(c)->0;
        Some((s.take(i), s.skip(i + 1)))
    } else {
        None
    }
}

/// The part of `s` before the last `c`, and the part after it.
pub open spec fn cut_last(s: Seq<char>, c: char) -> Option<(Seq<char>, Seq<char>)> {
    if s.contains(c) {
        let i = s.index_of_last(c)->0;
        Some((s.take(i), s.skip(i + 1)))
    } else {
        None
    }
}

/// Cuts `s` at its first `c`.
pub fn split_once<'a>(s: &'a str, c: char) -> (r: Option<(&'a str, &'a str)>)
    ensures
        r.deep_view() == cut_first(s@, c),
{
    let v: Vec<char> = chars_of(s);
    let mut i: usize = 0;
    while i < v.len()
        invariant
            i <= v.len(),
            v@ == s@,
            forall|j: int| 0 <= j < i ==> s@[j] != c,
        decreases v.len() - i,
    {
        if v[i] == c {
            proof {
                s@.index_of_first_ensures(c);
                assert(s@.contains(c));
                assert(s@.index_of_first(c)->0 == i);
            }
            return Some((s.substring_char(0, i), s.substring_char(i + 1, v.len())));
        }
        i = i + 1;
    }
    None
}

/// Cuts `s` at its last `c`.
pub fn rsplit_once<'a>(s: &'a str, c: char) -> (r: Option<(&'a str, &'a str)>)
    ensures
        r.deep_view() == cut_last(s@, c),
{
    let v: Vec<char> = chars_of(s);
    let mut i: usize = v.len();
    while i > 0
        invariant
            i <= v.len(),
            v@ == s@,
            forall|j: int| i <= j < s@.len() ==> s@[j] != c,
        decreases i,
    {
        i = i - 1;
        if v[i] == c {
            proof {
                s@.index_of_last_ensures(c);
                assert(s@.contains(c));
                assert(s@.index_of_last(c)->0 == i);
            }
            return Some((s.substring_char(0, i), s.substring_char(i + 1, v.len())));
        }
    }
    None
}

/// What was joined with a separator that the first part does not hold is cut into the same parts.
pub proof fn lemma_cut_first(s: Seq<char>, t: Seq<char>, c: char)
    requires
        !s.contains(c),
    ensures
        cut_first(s + seq![c] + t, c) == Some((s, t)),
{
    let all = s + seq![c] + t;
    assert(all[s.len() as int] == c);
    all.index_of_first_ensures(c);
    let i = all.index_of_first(c)->0;
    if i < s.len() {
        assert(s[i] == all[i]);
    }
    assert(i == s.len());
    assert(all.take(i) == s);
    assert(all.skip(i + 1) == t);
}

/// What was joined with a separator that the last part does not hold is cut into the same parts.
pub proof fn lemma_cut_last(s: Seq<char>, t: Seq<char>, c: char)
    requires
        !t.contains(c),
    ensures
        cut_last(s + seq![c] + t, c) == Some((s, t)),
{
    let all = s + seq![c] + t;
    assert(all[s.len() as int] == c);
    all.index_of_last_ensures(c);
    let i = all.index_of_last(c)->0;
    if i > s.len() {
        assert(t[i - s.len() - 1] == all[i]);
    }
    assert(i == s.len());
    assert(all.take(i) == s);
    assert(all.skip(i + 1) == t);
}

/// The part of `s` before the first `c`, or all of `s` where there is none.
pub open spec fn before_first(s: Seq<char>, c: char) -> Seq<char> {
    match cut_first(s, c) {
        Some((head, _)) => head,
        None => s,
    }
}

/// The part of `s` before its first `c`; all of it where there is none.
pub fn before<'a>(s: &'a str, c: char) -> (r: &'a str)
    ensures
        r@ == before_first(s@, c),
{
    match split_once(s, c) {
        Some((head, _)) => head,
        None => s,
    }
}

/// The pieces of `s` between the separators `seps`: one more than there are separators in `s`.
pub open spec fn pieces(s: Seq<char>, seps: Seq<char>) -> Seq<Seq<char>>
    decreases s.len(),
{
    if s.len() == 0 {
        seq![Seq::empty()]
    } else {
        let before = pieces(s.drop_last(), seps);
        if seps.contains(s.last()) {
            before.push(Seq::empty())
        } else {
            before.drop_last().push(before.last().push(s.last()))
        }
    }
}

/// There is always at least one piece.
pub proof fn lemma_pieces_nonempty(s: Seq<char>, seps: Seq<char>)
    ensures
        pieces(s, seps).len() >= 1,
    decreases s.len(),
{
    if s.len() > 0 {
        lemma_pieces_nonempty(s.drop_last(), seps);
    }
}

/// `c` is one of `seps`.
fn is_one_of(c: char, seps: &[char]) -> (r: bool)
    ensures
        r == seps@.contains(c),
{
    let mut i: usize = 0;
    while i < seps.len()
        invariant
            i <= seps.len(),
            forall|j: int| 0 <= j < i ==> seps@[j] != c,
        decreases seps.len() - i,
    {
        if seps[i] == c {
            return true;
        }
        i = i + 1;
    }
    false
}

/// Splits `s` at every separator.
pub fn split<'a>(s: &'a str, seps: &[char]) -> (r: Vec<&'a str>)
    ensures
        r.deep_view() == pieces(s@, seps@),
{
    let v: Vec<char> = chars_of(s);
    let mut r: Vec<&'a str> = Vec::new();
    let mut start: usize = 0;
    let mut i: usize = 0;
    proof {
        assert(s@.take(0) == Seq::<char>::empty());
        assert(r.deep_view().push(s@.subrange(0, 0)) == seq![Seq::<char>::empty()]);
    }
    while i < v.len()
        invariant
            start <= i <= v.len(),
            v@ == s@,
            r.deep_view().push(s@.subrange(start as int, i as int)) == pieces(
                s@.take(i as int),
                seps@,
            ),
        decreases v.len() - i,
    {
        let ghost before = r.deep_view();
        let ghost done = before.push(s@.subrange(start as int, i as int));
        proof {
            assert(s@.take(i + 1).drop_last() == s@.take(i as int));
            assert(done.drop_last() == before);
        }
        if is_one_of(v[i], seps) {
            r.push(s.substring_char(start, i));
            start = i + 1;
            proof {
                assert(r.deep_view() == done);
                assert(s@.subrange(i + 1, i + 1) == Seq::<char>::empty());
            }
        } else {
            proof {
                assert(s@.subrange(start as int, i + 1) == s@.subrange(start as int, i as int).push(
                    s@[i as int],
                ));
            }
        }
        i = i + 1;
    }
    let ghost before = r.deep_view();
    r.push(s.substring_char(start, v.len()));
    proof {
        assert(s@.take(s@.len() as int) == s@);
        assert(r.deep_view() == before.push(s@.subrange(start as int, s@.len() as int)));
    }
    r
}

/// No separator occurs in any of the pieces.
pub proof fn lemma_pieces_free_of_separators(s: Seq<char>, seps: Seq<char>)
    ensures
        forall|i: int, c: char|
            0 <= i < pieces(s, seps).len() && seps.contains(c) ==> !(
            #[trigger] pieces(s, seps)[i].contains(c)),
    decreases s.len(),
{
    if s.len() > 0 {
        lemma_pieces_free_of_separators(s.drop_last(), seps);
        lemma_pieces_nonempty(s.drop_last(), seps);
        let before = pieces(s.drop_last(), seps);
        if !seps.contains(s.last()) {
            assert forall|c: char| seps.contains(c) implies !before.last().push(s.last()).contains(
                c,
            ) by {
                assert(!before[before.len() - 1].contains(c));
                let last = before.last().push(s.last());
                assert forall|k: int| 0 <= k < last.len() implies last[k] != c by {
                    if k < before.last().len() {
                        assert(last[k] == before.last()[k]);
                        assert(before.last().contains(before.last()[k]));
                    }
                }
            }
        }
    }
}

// ---------------------------------------------------------------------------------------------
// White space
// ---------------------------------------------------------------------------------------------

/// The characters with the Unicode property `White_Space`.
pub open spec fn is_white_space(c: char) -> bool {
    ||| '\u{9}' <= c <= '\u{d}'
    ||| c == '\u{20}'
    ||| c == '\u{85}'
    ||| c == '\u{a0}'
    ||| c == '\u{1680}'
    ||| '\u{2000}' <= c <= '\u{200a}'
    ||| c == '\u{2028}'
    ||| c == '\u{2029}'
    ||| c == '\u{202f}'
    ||| c == '\u{205f}'
    ||| c == '\u{3000}'
}

/// `c` is white space.
pub fn white_space(c: char) -> (r: bool)
    ensures
        r == is_white_space(c),
{
    ('\u{9}' <= c && c <= '\u{d}') || c == '\u{20}' || c == '\u{85}' || c == '\u{a0}' || c
        == '\u{1680}' || ('\u{2000}' <= c && c <= '\u{200a}') || c == '\u{2028}' || c == '\u{2029}'
        || c == '\u{202f}' || c == '\u{205f}' || c == '\u{3000}'
}

/// `s` without its leading white space.
pub open spec fn trimmed_start(s: Seq<char>) -> Seq<char>
    decreases s.len(),
{
    if s.len() > 0 && is_white_space(s[0]) {
        trimmed_start(s.skip(1))
    } else {
        s
    }
}

/// `s` without its trailing white space.
pub open spec fn trimmed_end(s: Seq<char>) -> Seq<char>
    decreases s.len(),
{
    if s.len() > 0 && is_white_space(s.last()) {
        trimmed_end(s.drop_last())
    } else {
        s
    }
}

/// `s` without white space at either end.
pub open spec fn trimmed(s: Seq<char>) -> Seq<char> {
    trimmed_end(trimmed_start(s))
}

/// A text without white space at either end is not trimmed.
pub proof fn lemma_trimmed_keeps(s: Seq<char>)
    requires
        s.len() > 0,
        !is_white_space(s[0]),
        !is_white_space(s.last()),
    ensures
        trimmed(s) == s,
{
}

/// Drops white space at both ends of `s`.
pub fn trim<'a>(s: &'a str) -> (r: &'a str)
    ensures
        r@ == trimmed(s@),
{
    let v: Vec<char> = chars_of(s);
    let mut i: usize = 0;
    assert(s@.skip(0) == s@);
    while i < v.len() && white_space(v[i])
        invariant
            i <= v.len(),
            v@ == s@,
            trimmed_start(s@) == trimmed_start(s@.skip(i as int)),
        decreases v.len() - i,
    {
        assert(s@.skip(i as int).skip(1) == s@.skip(i + 1));
        i = i + 1;
    }
    let mut j: usize = v.len();
    assert(s@.subrange(i as int, j as int) == s@.skip(i as int));
    while j > i && white_space(v[j - 1])
        invariant
            i <= j <= v.len(),
            v@ == s@,
            trimmed(s@) == trimmed_end(s@.subrange(i as int, j as int)),
        decreases j,
    {
        assert(s@.subrange(i as int, j as int).drop_last() == s@.subrange(i as int, j - 1));
        j = j - 1;
    }
    s.substring_char(i, j)
}

} // verus!
