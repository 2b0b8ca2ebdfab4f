//! Facts about sequences.

use vstd::prelude::*;

verus! {

/// What a filtered and mapped sequence holds.
pub proof fn lemma_filter_map_contains<A, B>(s: Seq<A>, f: spec_fn(A) -> Option<B>, b: B)
    ensures
        s.filter_map(f).contains(b) <==> exists|i: int|
            0 <= i < s.len() && f(#[trigger] s[i]) == Some(b),
    decreases s.len(),
{
    reveal(Seq::filter_map);
    if s.len() > 0 {
        let init = s.drop_last();
        lemma_filter_map_contains(init, f, b);
        let before = init.filter_map(f);
        let after = s.filter_map(f);
        match f(s.last()) {
            Some(x) => {
                assert(after == before.push(x));
                if before.contains(b) {
                    assert(after[before.index_of(b)] == b);
                }
                if x == b {
                    assert(after[before.len() as int] == b);
                }
                if after.contains(b) && x != b {
                    let k = after.index_of(b);
                    assert(before[k] == b);
                    assert(before.contains(b));
                }
            },
            None => {
                assert(after == before);
            },
        }
        if exists|i: int| 0 <= i < init.len() && f(#[trigger] init[i]) == Some(b) {
            let i = choose|i: int| 0 <= i < init.len() && f(#[trigger] init[i]) == Some(b);
            assert(f(s[i]) == Some(b));
        }
        if exists|i: int| 0 <= i < s.len() && f(#[trigger] s[i]) == Some(b) {
            let i = choose|i: int| 0 <= i < s.len() && f(#[trigger] s[i]) == Some(b);
            if i < init.len() {
                assert(f(init[i]) == Some(b));
            }
        }
        if f(s.last()) == Some(b) {
            assert(f(s[s.len() - 1]) == Some(b));
        }
    }
}

/// Filtering and mapping two sequences one after the other is filtering and mapping them joined.
pub proof fn lemma_filter_map_joined<A, B>(a: Seq<A>, b: Seq<A>, f: spec_fn(A) -> Option<B>)
    ensures
        (a + b).filter_map(f) == a.filter_map(f) + b.filter_map(f),
    decreases b.len(),
{
    reveal(Seq::filter_map);
    if b.len() == 0 {
        assert(a + b =~= a);
        assert(a.filter_map(f) + b.filter_map(f) =~= a.filter_map(f));
    } else {
        let init = b.drop_last();
        lemma_filter_map_joined(a, init, f);
        assert((a + b).drop_last() =~= a + init);
        assert((a + b).last() == b.last());
        assert((a + b).filter_map(f) =~= a.filter_map(f) + b.filter_map(f));
    }
}

} // verus!
