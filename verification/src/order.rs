//! The order of text, and sorting by it.

use crate::text;
use vstd::prelude::*;
use vstd::relations::*;
use vstd::seq_lib::*;

verus! {

/// `a` comes before `b`, or is `b`: the dictionary order on characters.
pub open spec fn lex_le(a: Seq<char>, b: Seq<char>) -> bool
    decreases a.len(),
{
    if a.len() == 0 {
        true
    } else if b.len() == 0 {
        false
    } else if a[0] != b[0] {
        a[0] < b[0]
    } else {
        lex_le(a.skip(1), b.skip(1))
    }
}

/// The dictionary order as a relation.
pub open spec fn lex() -> spec_fn(Seq<char>, Seq<char>) -> bool {
    |a: Seq<char>, b: Seq<char>| lex_le(a, b)
}

/// `s` in dictionary order.
pub open spec fn sorted(s: Seq<Seq<char>>) -> Seq<Seq<char>> {
    s.sort_by(lex())
}

proof fn lemma_lex_reflexive(a: Seq<char>)
    ensures
        lex_le(a, a),
    decreases a.len(),
{
    if a.len() > 0 {
        lemma_lex_reflexive(a.skip(1));
    }
}

proof fn lemma_lex_antisymmetric(a: Seq<char>, b: Seq<char>)
    requires
        lex_le(a, b),
        lex_le(b, a),
    ensures
        a == b,
    decreases a.len(),
{
    if a.len() > 0 && b.len() > 0 {
        lemma_lex_antisymmetric(a.skip(1), b.skip(1));
        assert(a == seq![a[0]] + a.skip(1));
        assert(b == seq![b[0]] + b.skip(1));
    } else {
        assert(a =~= b);
    }
}

proof fn lemma_lex_transitive(a: Seq<char>, b: Seq<char>, c: Seq<char>)
    requires
        lex_le(a, b),
        lex_le(b, c),
    ensures
        lex_le(a, c),
    decreases a.len(),
{
    if a.len() > 0 && a[0] == b[0] && b[0] == c[0] {
        lemma_lex_transitive(a.skip(1), b.skip(1), c.skip(1));
    }
}

proof fn lemma_lex_connected(a: Seq<char>, b: Seq<char>)
    ensures
        lex_le(a, b) || lex_le(b, a),
    decreases a.len(),
{
    if a.len() > 0 && b.len() > 0 && a[0] == b[0] {
        lemma_lex_connected(a.skip(1), b.skip(1));
    }
}

/// The dictionary order is a total order.
pub proof fn lemma_lex_total()
    ensures
        total_ordering(lex()),
{
    let r = lex();
    assert forall|a: Seq<char>| #[trigger] r(a, a) by {
        lemma_lex_reflexive(a);
    }
    assert forall|a: Seq<char>, b: Seq<char>| #[trigger] r(a, b) && #[trigger] r(b, a) implies a
        == b by {
        lemma_lex_antisymmetric(a, b);
    }
    assert forall|a: Seq<char>, b: Seq<char>, c: Seq<char>| #[trigger]
        r(a, b) && #[trigger] r(b, c) implies r(a, c) by {
        lemma_lex_transitive(a, b, c);
    }
    assert forall|a: Seq<char>, b: Seq<char>| #[trigger] r(a, b) || #[trigger] r(b, a) by {
        lemma_lex_connected(a, b);
    }
}

/// Sorting keeps the elements, each as often as it occurs, and puts them in order.
pub proof fn lemma_sorted(s: Seq<Seq<char>>)
    ensures
        sorted(s).to_multiset() == s.to_multiset(),
        sorted_by(sorted(s), lex()),
        sorted(s).len() == s.len(),
        forall|x: Seq<char>| sorted(s).contains(x) <==> s.contains(x),
{
    broadcast use group_to_multiset_ensures;

    lemma_lex_total();
    s.lemma_sort_by_ensures(lex());
    assert(sorted(s).len() == sorted(s).to_multiset().len());
    assert forall|x: Seq<char>| sorted(s).contains(x) <==> s.contains(x) by {
        assert(sorted(s).contains(x) <==> sorted(s).to_multiset().count(x) > 0);
        assert(s.contains(x) <==> s.to_multiset().count(x) > 0);
    }
}

/// A sequence in order that has the elements of `s` is `sorted(s)`.
pub proof fn lemma_sorted_is(s: Seq<Seq<char>>, t: Seq<Seq<char>>)
    requires
        sorted_by(t, lex()),
        t.to_multiset() == s.to_multiset(),
    ensures
        t == sorted(s),
{
    lemma_lex_total();
    lemma_sorted(s);
    lemma_sorted_unique(t, sorted(s), lex());
}

/// Compares two strings in dictionary order.
pub fn in_order(a: &str, b: &str) -> (r: bool)
    ensures
        r == lex_le(a@, b@),
{
    let x: Vec<char> = text::chars_of(a);
    let y: Vec<char> = text::chars_of(b);
    let mut i: usize = 0;
    assert(a@.skip(0) == a@ && b@.skip(0) == b@);
    while i < x.len() && i < y.len()
        invariant
            x@ == a@,
            y@ == b@,
            i <= x.len(),
            i <= y.len(),
            lex_le(a@, b@) == lex_le(a@.skip(i as int), b@.skip(i as int)),
        decreases x.len() - i,
    {
        if x[i] != y[i] {
            return x[i] < y[i];
        }
        assert(a@.skip(i as int).skip(1) == a@.skip(i + 1));
        assert(b@.skip(i as int).skip(1) == b@.skip(i + 1));
        i = i + 1;
    }
    i == x.len()
}

/// Puts `x` into `v`, which is in order, behind the elements that do not come after it.
fn insert_in_order(v: &mut Vec<String>, x: String)
    requires
        sorted_by(old(v).deep_view(), lex()),
    ensures
        sorted_by(final(v).deep_view(), lex()),
        final(v).deep_view().to_multiset() == old(v).deep_view().to_multiset().insert(x@),
{
    broadcast use group_to_multiset_ensures;

    let ghost before = v.deep_view();
    let mut i: usize = v.len();
    let n: usize = v.len();
    while i > 0 && !in_order(v[i - 1].as_str(), x.as_str())
        invariant
            i <= n == v.len(),
            before == v.deep_view(),
            before == old(v).deep_view(),
            forall|j: int| i <= j < n ==> !lex_le(#[trigger] before[j], x@),
        decreases i,
    {
        i = i - 1;
    }
    proof {
        lemma_lex_total();
        let r = lex();
        let after = before.insert(i as int, x@);
        assert forall|j: int, k: int| 0 <= j < k < after.len() implies #[trigger] r(
            after[j],
            after[k],
        ) by {
            assert forall|m: int| 0 <= m < i implies r(#[trigger] before[m], x@) by {
                if m < i - 1 {
                    assert(r(before[m], before[i - 1]));
                }
                assert(r(before[i - 1], x@));
            }
            assert forall|m: int| i <= m < n implies r(x@, #[trigger] before[m]) by {
                lemma_lex_connected(x@, before[m]);
            }
            if j < i && k < i {
                assert(r(before[j], before[k]));
            } else if j < i && k == i {
                assert(r(before[j], x@));
            } else if j < i {
                assert(r(before[j], before[k - 1]));
            } else if j == i {
                assert(r(x@, before[k - 1]));
            } else {
                assert(r(before[j - 1], before[k - 1]));
            }
        }
    }
    v.insert(i, x);
    assert(v.deep_view() == before.insert(i as int, x@));
}

/// Sorts in dictionary order.
pub fn sort(v: &Vec<String>) -> (r: Vec<String>)
    ensures
        r.deep_view() == sorted(v.deep_view()),
{
    let mut r: Vec<String> = Vec::new();
    let mut i: usize = 0;
    assert(v.deep_view().take(0) == r.deep_view());
    while i < v.len()
        invariant
            i <= v.len(),
            sorted_by(r.deep_view(), lex()),
            r.deep_view().to_multiset() == v.deep_view().take(i as int).to_multiset(),
        decreases v.len() - i,
    {
        proof {
            assert(v.deep_view().take(i + 1) == v.deep_view().take(i as int).push(v@[i as int]@));
            to_multiset_build(v.deep_view().take(i as int), v@[i as int]@);
        }
        insert_in_order(&mut r, v[i].clone());
        i = i + 1;
    }
    proof {
        assert(v.deep_view().take(v@.len() as int) == v.deep_view());
        lemma_sorted_is(v.deep_view(), r.deep_view());
    }
    r
}

} // verus!
