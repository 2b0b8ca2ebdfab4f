//! Tables that keep their keys in the order of first insertion, and the one keyed by text.

use vstd::prelude::*;

verus! {

/// The position of `key` among the entries, or their number where it is absent.
pub open spec fn position<K, V>(entries: Seq<(K, V)>, key: K) -> int
    decreases entries.len(),
{
    if entries.len() == 0 || entries[0].0 == key {
        0
    } else {
        1 + position(entries.skip(1), key)
    }
}

/// `key` is among the keys.
pub open spec fn has_key<K, V>(entries: Seq<(K, V)>, key: K) -> bool {
    exists|i: int| 0 <= i < entries.len() && (#[trigger] entries[i]).0 == key
}

/// The value stored under `key`.
pub open spec fn lookup<K, V>(entries: Seq<(K, V)>, key: K) -> Option<V> {
    if has_key(entries, key) {
        Some(entries[position(entries, key)].1)
    } else {
        None
    }
}

/// The entries after `value` is stored under `key`: in its old place, or at the end.
pub open spec fn inserted<K, V>(entries: Seq<(K, V)>, key: K, value: V) -> Seq<(K, V)> {
    if has_key(entries, key) {
        entries.update(position(entries, key), (key, value))
    } else {
        entries.push((key, value))
    }
}

/// Entries under another key than `key`.
pub open spec fn other_than<K, V>(key: K) -> spec_fn((K, V)) -> bool {
    |e: (K, V)| e.0 != key
}

/// The entries without those under `key`.
pub open spec fn removed<K, V>(entries: Seq<(K, V)>, key: K) -> Seq<(K, V)> {
    entries.filter(other_than(key))
}

/// No key occurs twice.
pub open spec fn distinct_keys<K, V>(entries: Seq<(K, V)>) -> bool {
    forall|i: int, j: int|
        0 <= i < j < entries.len() ==> (#[trigger] entries[i]).0 != (#[trigger] entries[j]).0
}

/// `position` finds the first entry with the key.
pub proof fn lemma_position<K, V>(entries: Seq<(K, V)>, key: K)
    ensures
        0 <= position(entries, key) <= entries.len(),
        has_key(entries, key) <==> position(entries, key) < entries.len(),
        has_key(entries, key) ==> entries[position(entries, key)].0 == key,
        forall|j: int| 0 <= j < position(entries, key) ==> (#[trigger] entries[j]).0 != key,
    decreases entries.len(),
{
    if entries.len() > 0 && entries[0].0 != key {
        let rest = entries.skip(1);
        lemma_position(rest, key);
        assert forall|j: int| 0 <= j < position(entries, key) implies (
        #[trigger] entries[j]).0 != key by {
            if j > 0 {
                assert(rest[j - 1] == entries[j]);
            }
        }
        if has_key(entries, key) {
            let i = choose|i: int| 0 <= i < entries.len() && (#[trigger] entries[i]).0 == key;
            assert(rest[i - 1] == entries[i]);
        }
        if has_key(rest, key) {
            let i = choose|i: int| 0 <= i < rest.len() && (#[trigger] rest[i]).0 == key;
            assert(rest[i] == entries[i + 1]);
        }
    }
}

/// The first entry with the key is at its position.
pub proof fn lemma_position_is<K, V>(entries: Seq<(K, V)>, key: K, i: int)
    requires
        0 <= i < entries.len(),
        entries[i].0 == key,
        forall|j: int| 0 <= j < i ==> (#[trigger] entries[j]).0 != key,
    ensures
        has_key(entries, key),
        position(entries, key) == i,
{
    lemma_position(entries, key);
    let p = position(entries, key);
    if p < i {
        assert(entries[p].0 != key);
    }
}

/// A stored value is found under its key, and the other keys keep theirs.
pub proof fn lemma_inserted<K, V>(
    entries: Seq<(K, V)>,
    key: K,
    value: V,
    other: K,
)
    ensures
        lookup(inserted(entries, key, value), key) == Some(value),
        other != key ==> lookup(inserted(entries, key, value), other) == lookup(entries, other),
        distinct_keys(entries) ==> distinct_keys(inserted(entries, key, value)),
{
    let after = inserted(entries, key, value);
    lemma_position(entries, key);
    lemma_position(entries, other);
    let p = if has_key(entries, key) {
        position(entries, key)
    } else {
        entries.len() as int
    };
    lemma_position_is(after, key, p);
    if other != key {
        let q = position(entries, other);
        if has_key(entries, other) {
            assert(after[q] == entries[q]);
            lemma_position_is(after, other, q);
        } else if has_key(after, other) {
            let i = choose|i: int| 0 <= i < after.len() && (#[trigger] after[i]).0 == other;
            assert(entries[i] == after[i]);
        }
    }
}

/// What is found under a key is the value of the first entry with that key, and nothing where no
/// entry has it.
pub proof fn lemma_lookup<K, V>(entries: Seq<(K, V)>, key: K, i: int)
    ensures
        0 <= i < entries.len() && entries[i].0 == key && (forall|j: int|
            0 <= j < i ==> (#[trigger] entries[j]).0 != key) ==> lookup(entries, key) == Some(
            entries[i].1,
        ),
        (forall|j: int| 0 <= j < entries.len() ==> (#[trigger] entries[j]).0 != key) <==> lookup(
            entries,
            key,
        ) is None,
{
    if 0 <= i < entries.len() && entries[i].0 == key && (forall|j: int|
        0 <= j < i ==> (#[trigger] entries[j]).0 != key) {
        lemma_position_is(entries, key, i);
    }
}

/// Storing a value leaves every key where it is; a new key stands at the end.
pub proof fn lemma_places_kept<K, V>(entries: Seq<(K, V)>, key: K, value: V, k: int)
    ensures
        0 <= k < entries.len() ==> inserted(entries, key, value)[k].0 == entries[k].0,
        0 <= k < entries.len() && entries[k].0 != key ==> inserted(entries, key, value)[k]
            == entries[k],
        lookup(entries, key) is Some ==> inserted(entries, key, value).len() == entries.len(),
        lookup(entries, key) is None ==> inserted(entries, key, value) == entries.push((key, value)),
{
    lemma_position(entries, key);
}

/// Removing a key leaves the other entries in their order: what is left of two tables one after the
/// other is what is left of each.
pub proof fn lemma_removed_joined<K, V>(a: Seq<(K, V)>, b: Seq<(K, V)>, key: K, value: V, other: K)
    ensures
        removed(a + b, key) == removed(a, key) + removed(b, key),
        removed(seq![(key, value)], key).len() == 0,
        other != key ==> removed(seq![(other, value)], key) == seq![(other, value)],
{
    let keep = other_than::<K, V>(key);
    Seq::filter_distributes_over_add(a, b, keep);
    reveal(Seq::filter);
    assert(seq![(key, value)].drop_last() =~= Seq::<(K, V)>::empty());
    assert(seq![(other, value)].drop_last() =~= Seq::<(K, V)>::empty());
    assert(Seq::<(K, V)>::empty().filter(keep) =~= Seq::<(K, V)>::empty());
    assert(seq![(key, value)].last() == (key, value));
    assert(seq![(other, value)].last() == (other, value));
    if other != key {
        assert(removed(seq![(other, value)], key) =~= seq![(other, value)]);
    }
}

/// A removed key is gone, and the other keys keep their values.
pub proof fn lemma_removed<K, V>(entries: Seq<(K, V)>, key: K, other: K)
    ensures
        lookup(removed(entries, key), key) is None,
        other != key ==> lookup(removed(entries, key), other) == lookup(entries, other),
        distinct_keys(entries) ==> distinct_keys(removed(entries, key)),
    decreases entries.len(),
{
    reveal(Seq::filter);
    let keep = other_than::<K, V>(key);
    if entries.len() == 0 {
    } else {
        let init = entries.drop_last();
        let last = entries.last();
        lemma_removed(init, key, other);
        let before = removed(init, key);
        let after = removed(entries, key);
        assert forall|i: int| 0 <= i < before.len() implies init.contains(#[trigger] before[i])
            && before[i].0 != key by {
            assert(before.contains(before[i]));
            init.lemma_filter_contains_rev(keep, before[i]);
        }
        if keep(last) {
            assert(after == before.push(last));
            assert(!has_key(after, key)) by {
                if has_key(after, key) {
                    let i = choose|i: int| 0 <= i < after.len() && (#[trigger] after[i]).0 == key;
                    assert(before[i].0 == key);
                    assert(has_key(before, key));
                }
            }
            if distinct_keys(entries) {
                assert(distinct_keys(init)) by {
                    assert forall|i: int, j: int| 0 <= i < j < init.len() implies (
                    #[trigger] init[i]).0 != (#[trigger] init[j]).0 by {
                        assert(entries[i].0 != entries[j].0);
                    }
                }
                assert forall|i: int, j: int| 0 <= i < j < after.len() implies (
                #[trigger] after[i]).0 != (#[trigger] after[j]).0 by {
                    if j < before.len() {
                        assert(before[i].0 != before[j].0);
                    } else {
                        assert(init.contains(before[i]));
                        let k = init.index_of(before[i]);
                        assert(entries[k].0 != entries[entries.len() - 1].0);
                    }
                }
            }
            if other != key {
                lemma_pushed_lookup(init, last, other);
                lemma_pushed_lookup(before, last, other);
                assert(entries == init.push(last));
            }
        } else {
            assert(after == before);
            assert(entries == init.push(last));
            if other != key {
                lemma_pushed_lookup(init, last, other);
            }
            if distinct_keys(entries) {
                assert forall|i: int, j: int| 0 <= i < j < init.len() implies (
                #[trigger] init[i]).0 != (#[trigger] init[j]).0 by {
                    assert(entries[i].0 != entries[j].0);
                }
            }
        }
    }
}

/// An entry at the end is found only where no earlier one has its key.
proof fn lemma_pushed_lookup<K, V>(entries: Seq<(K, V)>, e: (K, V), key: K)
    ensures
        lookup(entries.push(e), key) == (if has_key(entries, key) {
            lookup(entries, key)
        } else if e.0 == key {
            Some(e.1)
        } else {
            None
        }),
{
    let after = entries.push(e);
    lemma_position(entries, key);
    lemma_position(after, key);
    if has_key(entries, key) {
        let p = position(entries, key);
        assert(after[p] == entries[p]);
        assert forall|j: int| 0 <= j < p implies (#[trigger] after[j]).0 != key by {
            assert(after[j] == entries[j]);
        }
        lemma_position_is(after, key, p);
    } else if e.0 == key {
        assert forall|j: int| 0 <= j < entries.len() implies (#[trigger] after[j]).0 != key by {
            assert(after[j] == entries[j]);
        }
        lemma_position_is(after, key, entries.len() as int);
    } else if has_key(after, key) {
        let i = choose|i: int| 0 <= i < after.len() && (#[trigger] after[i]).0 == key;
        assert(entries[i] == after[i]);
    }
}

/// A table from text to values. Its view is the list of its entries.
#[derive(Debug)]
pub struct StringMap<V> {
    entries: Vec<(String, V)>,
}

impl<V: DeepView> View for StringMap<V> {
    type V = Seq<(Seq<char>, V::V)>;

    closed spec fn view(&self) -> Seq<(Seq<char>, V::V)> {
        self.entries.deep_view()
    }
}

impl<V: DeepView> DeepView for StringMap<V> {
    type V = Seq<(Seq<char>, V::V)>;

    open spec fn deep_view(&self) -> Seq<(Seq<char>, V::V)> {
        self@
    }
}

impl<V: DeepView> StringMap<V> {
    /// No key is stored twice.
    pub open spec fn wf(&self) -> bool {
        distinct_keys(self@)
    }

    /// An empty table.
    pub fn new() -> (r: Self)
        ensures
            r@ == Seq::<(Seq<char>, V::V)>::empty(),
            r.wf(),
    {
        let r = StringMap { entries: Vec::new() };
        assert(r@ == Seq::<(Seq<char>, V::V)>::empty());
        r
    }

    /// The number of entries.
    pub fn len(&self) -> (r: usize)
        ensures
            r == self@.len(),
    {
        self.entries.len()
    }

    /// The key at `i`.
    pub fn key(&self, i: usize) -> (r: &String)
        requires
            i < self@.len(),
        ensures
            r@ == self@[i as int].0,
    {
        &self.entries[i].0
    }

    /// The value at `i`.
    pub fn value(&self, i: usize) -> (r: &V)
        requires
            i < self@.len(),
        ensures
            r.deep_view() == self@[i as int].1,
    {
        &self.entries[i].1
    }

    /// The value at `i`, to be changed in place.
    pub fn value_mut(&mut self, i: usize) -> (r: &mut V)
        requires
            i < old(self)@.len(),
        ensures
            (*r).deep_view() == old(self)@[i as int].1,
            final(self)@ == old(self)@.update(
                i as int,
                (old(self)@[i as int].0, (*final(r)).deep_view()),
            ),
    {
        &mut self.entries[i].1
    }

    /// Where `key` is stored.
    pub fn find(&self, key: &str) -> (r: Option<usize>)
        ensures
            match r {
                Some(i) => has_key(self@, key@) && i == position(self@, key@) && i < self@.len(),
                None => !has_key(self@, key@),
            },
    {
        let mut i: usize = 0;
        while i < self.entries.len()
            invariant
                i <= self.entries.len(),
                self@.len() == self.entries@.len(),
                forall|j: int| 0 <= j < i ==> (#[trigger] self@[j]).0 != key@,
            decreases self.entries.len() - i,
        {
            assert(self@[i as int].0 == self.entries@[i as int].0@);
            if crate::text::equal(self.entries[i].0.as_str(), key) {
                proof {
                    lemma_position_is(self@, key@, i as int);
                }
                return Some(i);
            }
            i = i + 1;
        }
        None
    }

    /// The value stored under `key`.
    pub fn get(&self, key: &str) -> (r: Option<&V>)
        ensures
            r.deep_view() == lookup(self@, key@),
    {
        match self.find(key) {
            Some(i) => Some(&self.entries[i].1),
            None => None,
        }
    }

    /// Whether something is stored under `key`.
    pub fn contains_key(&self, key: &str) -> (r: bool)
        ensures
            r == has_key(self@, key@),
    {
        match self.find(key) {
            Some(_) => true,
            None => false,
        }
    }

    /// Stores `value` under `key`, in place of what was there.
    pub fn insert(&mut self, key: String, value: V)
        ensures
            final(self)@ == inserted(old(self)@, key@, value.deep_view()),
            old(self).wf() ==> final(self).wf(),
    {
        let ghost before = self@;
        proof {
            lemma_inserted(before, key@, value.deep_view(), key@);
        }
        match self.find(key.as_str()) {
            Some(i) => {
                self.entries.set(i, (key, value));
            },
            None => {
                self.entries.push((key, value));
            },
        }
        assert(self@ == inserted(before, key@, value.deep_view()));
    }

    /// Forgets what is stored under `key`.
    pub fn remove(&mut self, key: &str)
        ensures
            final(self)@ == removed(old(self)@, key@),
            old(self).wf() ==> final(self).wf(),
    {
        let ghost before = self@;
        proof {
            lemma_removed(before, key@, key@);
        }
        let mut i: usize = 0;
        let n: usize = self.entries.len();
        let mut kept: usize = 0;
        assert(before.take(0) == Seq::<(Seq<char>, V::V)>::empty());
        assert(self@.take(0) + before.skip(0) == before);
        assert(removed(before.take(0), key@) == self@.take(0)) by {
            reveal(Seq::filter);
        }
        while i < n
            invariant
                kept <= i <= n,
                before == old(self)@,
                before.len() == n,
                self@.len() == n - (i - kept),
                self@ == removed(before.take(i as int), key@) + before.skip(i as int),
                removed(before.take(i as int), key@).len() == kept,
            decreases n - i,
        {
            let ghost done = removed(before.take(i as int), key@);
            proof {
                reveal(Seq::filter);
                assert(before.take(i + 1).drop_last() == before.take(i as int));
                assert(self@[kept as int] == before[i as int]);
                assert(self@[kept as int].0 == self.entries@[kept as int].0@);
            }
            if crate::text::equal(self.entries[kept].0.as_str(), key) {
                let ghost current = self@;
                let _ = self.entries.remove(kept);
                proof {
                    assert(self@ == current.remove(kept as int));
                    assert(self@ == done + before.skip(i + 1));
                }
            } else {
                proof {
                    assert(self@ == done.push(before[i as int]) + before.skip(i + 1));
                }
                kept = kept + 1;
            }
            i = i + 1;
        }
        proof {
            assert(before.take(n as int) == before);
            assert(self@ == removed(before, key@));
        }
    }
}

} // verus!
