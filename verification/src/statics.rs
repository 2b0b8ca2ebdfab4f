//! Static routes: hosts whose requests go to fixed addresses.

use crate::config;
use crate::config::StaticRouteEntry;
use crate::string_map;
use crate::string_map::StringMap;
use crate::text;
use vstd::prelude::*;
use vstd::string::StrSliceExecFns;

verus! {

/// Where the requests of a static route go.
#[derive(Debug)]
pub struct StaticTarget {
    pub ip: String,
    pub port: u16,
}

/// The mathematical value of a `StaticTarget`.
#[verifier::ext_equal]
pub struct StaticTargetView {
    pub ip: Seq<char>,
    pub port: u16,
}

impl View for StaticTarget {
    type V = StaticTargetView;

    open spec fn view(&self) -> StaticTargetView {
        StaticTargetView { ip: self.ip@, port: self.port }
    }
}

impl DeepView for StaticTarget {
    type V = StaticTargetView;

    open spec fn deep_view(&self) -> StaticTargetView {
        self@
    }
}

impl Clone for StaticTarget {
    fn clone(&self) -> (r: Self)
        ensures
            r@ == self@,
    {
        StaticTarget { ip: self.ip.clone(), port: self.port }
    }
}

// ---------------------------------------------------------------------------------------------
// The table
// ---------------------------------------------------------------------------------------------

/// The static routes. A host is looked up among the exact names first, then among the wildcards.
#[derive(Debug)]
pub struct StaticRoutes {
    /// The targets of whole host names.
    pub exact: StringMap<StaticTarget>,
    /// The targets of wildcards, by suffix: `*.example.com` has the suffix `.example.com`. Longer
    /// suffixes come first.
    pub wildcard: Vec<(String, StaticTarget)>,
}

/// Wildcards: suffixes and their targets.
pub type Wildcards = Seq<(Seq<char>, StaticTargetView)>;

/// The mathematical value of `StaticRoutes`.
#[verifier::ext_equal]
pub struct StaticRoutesView {
    pub exact: Seq<(Seq<char>, StaticTargetView)>,
    pub wildcard: Wildcards,
}

impl View for StaticRoutes {
    type V = StaticRoutesView;

    open spec fn view(&self) -> StaticRoutesView {
        StaticRoutesView { exact: self.exact@, wildcard: self.wildcard.deep_view() }
    }
}

/// `short` is a suffix of `long`, and shorter.
pub open spec fn is_proper_suffix(short: Seq<char>, long: Seq<char>) -> bool {
    short.is_suffix_of(long) && short.len() < long.len()
}

/// Whether `short` is a suffix of `long`, and shorter.
pub fn proper_suffix(short: &str, long: &str) -> (r: bool)
    ensures
        r == is_proper_suffix(short@, long@),
{
    short.unicode_len() < long.unicode_len() && text::ends_with(long, short)
}

/// The length of a text in bytes.
pub open spec fn byte_len(s: Seq<char>) -> nat {
    vstd::utf8::encode_utf8(s).len()
}

/// What a pattern means.
pub enum Pattern {
    /// This host.
    Exact(Seq<char>),
    /// Every host with this suffix.
    Wildcard(Seq<char>),
    /// No host: a `*` stands elsewhere than in a leading `*.`, or nothing follows that.
    Invalid,
}

/// The meaning of a pattern. `*.example.com` has the suffix `.example.com`, so it matches hosts
/// below `example.com` at any depth, and neither `example.com` nor `myexample.com`.
pub open spec fn pattern_of(s: Seq<char>) -> Pattern {
    if "*."@.is_prefix_of(s) {
        if s.len() == 2 || s.skip(2).contains('*') {
            Pattern::Invalid
        } else {
            Pattern::Wildcard(s.skip(1))
        }
    } else if s.contains('*') {
        Pattern::Invalid
    } else {
        Pattern::Exact(s)
    }
}

/// Puts a wildcard behind those whose suffixes are at least as long.
pub open spec fn placed(v: Wildcards, e: (Seq<char>, StaticTargetView)) -> Wildcards
    decreases v.len(),
{
    if v.len() == 0 || byte_len(v.last().0) >= byte_len(e.0) {
        v.push(e)
    } else {
        placed(v.drop_last(), e).push(v.last())
    }
}

/// The table of a list of static routes. Of two routes for one whole host name the later counts.
pub open spec fn static_table(entries: Seq<config::StaticRouteView>) -> StaticRoutesView
    decreases entries.len(),
{
    if entries.len() == 0 {
        StaticRoutesView { exact: Seq::empty(), wildcard: Seq::empty() }
    } else {
        let before = static_table(entries.drop_last());
        let e = entries.last();
        let target = StaticTargetView { ip: e.ip, port: e.port };
        match pattern_of(e.pattern) {
            Pattern::Exact(host) => StaticRoutesView {
                exact: string_map::inserted(before.exact, host, target),
                wildcard: before.wildcard,
            },
            Pattern::Wildcard(suffix) => StaticRoutesView {
                exact: before.exact,
                wildcard: placed(before.wildcard, (suffix, target)),
            },
            Pattern::Invalid => before,
        }
    }
}

/// The target of the first wildcard that matches `host`.
pub open spec fn first_wildcard(wildcards: Wildcards, host: Seq<char>) -> Option<StaticTargetView>
    decreases wildcards.len(),
{
    if wildcards.len() == 0 {
        None
    } else if wildcards[0].0.is_suffix_of(host) {
        Some(wildcards[0].1)
    } else {
        first_wildcard(wildcards.skip(1), host)
    }
}

impl StaticRoutesView {
    /// Where the requests for `host` go.
    pub open spec fn target(self, host: Seq<char>) -> Option<StaticTargetView> {
        match string_map::lookup(self.exact, host) {
            Some(t) => Some(t),
            None => first_wildcard(self.wildcard, host),
        }
    }
}

/// Puts a wildcard in its place.
fn place(v: &mut Vec<(String, StaticTarget)>, suffix: String, target: StaticTarget)
    ensures
        final(v).deep_view() == placed(old(v).deep_view(), (suffix@, target@)),
{
    let ghost before = v.deep_view();
    let ghost e = (suffix@, target@);
    let mut i: usize = v.len();
    let n: usize = v.len();
    let len: usize = suffix.as_str().as_bytes().len();
    assert(before.take(n as int) == before);
    assert(placed(before, e) == placed(before.take(i as int), e) + before.skip(i as int));
    while i > 0 && v[i - 1].0.as_str().as_bytes().len() < len
        invariant
            i <= n == v.len(),
            before == v.deep_view(),
            before == old(v).deep_view(),
            e == (suffix@, target@),
            len == byte_len(suffix@),
            placed(before, e) == placed(before.take(i as int), e) + before.skip(i as int),
        decreases i,
    {
        proof {
            assert(before.take(i as int).drop_last() == before.take(i - 1));
            assert(before.take(i as int).last() == before[i - 1]);
            assert(before[i - 1].0 == v@[i - 1].0@);
            assert(placed(before.take(i - 1), e).push(before[i - 1]) + before.skip(i as int)
                == placed(before.take(i - 1), e) + before.skip(i - 1));
        }
        i = i - 1;
    }
    proof {
        if i > 0 {
            assert(before.take(i as int).last() == before[i - 1]);
            assert(before[i - 1].0 == v@[i - 1].0@);
        }
        assert(placed(before.take(i as int), e) == before.take(i as int).push(e));
        assert(before.take(i as int).push(e) + before.skip(i as int) == before.insert(
            i as int,
            e,
        ));
    }
    v.insert(i, (suffix, target));
    assert(v.deep_view() == before.insert(i as int, e));
}

/// Whether `c` occurs in `s`.
fn has_char(s: &str, c: char) -> (r: bool)
    ensures
        r == s@.contains(c),
{
    match text::split_once(s, c) {
        Some(_) => true,
        None => false,
    }
}

impl StaticRoutes {
    /// No static routes.
    pub fn empty() -> (r: Self)
        ensures
            r@ == (StaticRoutesView { exact: Seq::empty(), wildcard: Seq::empty() }),
    {
        StaticRoutes { exact: StringMap::new(), wildcard: Vec::new() }
    }

    /// Builds the table of a list of static routes. Routes with an invalid pattern are skipped.
    pub fn from_entries(entries: &[StaticRouteEntry]) -> (r: Self)
        ensures
            r@ == static_table(entries.deep_view()),
            r.exact.wf(),
    {
        let mut exact: StringMap<StaticTarget> = StringMap::new();
        let mut wildcard: Vec<(String, StaticTarget)> = Vec::new();
        let ghost all = entries.deep_view();
        let mut i: usize = 0;
        proof {
            reveal_strlit("*.");
            assert(all.take(0) == Seq::<config::StaticRouteView>::empty());
        }
        while i < entries.len()
            invariant
                i <= entries@.len(),
                all == entries.deep_view(),
                exact.wf(),
                (StaticRoutesView { exact: exact@, wildcard: wildcard.deep_view() })
                    == static_table(all.take(i as int)),
            decreases entries.len() - i,
        {
            let e: &StaticRouteEntry = &entries[i];
            let target: StaticTarget = StaticTarget { ip: e.ip.clone(), port: e.port };
            let pattern: &str = e.pattern.as_str();
            proof {
                reveal_strlit("*.");
                assert(all[i as int] == e@);
                assert(all.take(i + 1).drop_last() == all.take(i as int));
            }
            if text::starts_with(pattern, "*.") {
                let n: usize = pattern.unicode_len();
                if n > 2 && !has_char(pattern.substring_char(2, n), '*') {
                    let suffix: &str = pattern.substring_char(1, n);
                    place(&mut wildcard, suffix.to_string(), target);
                }
            } else if !has_char(pattern, '*') {
                exact.insert(pattern.to_string(), target);
            }
            i = i + 1;
        }
        assert(all.take(all.len() as int) == all);
        StaticRoutes { exact, wildcard }
    }

    /// Where the requests for `host` go: to the target of its whole name, or else to that of the
    /// longest suffix that matches.
    pub fn resolve(&self, host: &str) -> (r: Option<StaticTarget>)
        ensures
            r.deep_view() == self@.target(host@),
    {
        match self.exact.get(host) {
            Some(t) => {
                return Some(t.clone());
            },
            None => {},
        }
        let ghost all = self@.wildcard;
        let mut i: usize = 0;
        assert(all.skip(0) == all);
        while i < self.wildcard.len()
            invariant
                i <= self.wildcard@.len(),
                all == self.wildcard.deep_view(),
                string_map::lookup(self@.exact, host@) is None,
                first_wildcard(self@.wildcard, host@) == first_wildcard(all.skip(i as int), host@),
            decreases self.wildcard.len() - i,
        {
            assert(all.skip(i as int)[0] == all[i as int]);
            assert(all[i as int] == (self.wildcard@[i as int].0@, self.wildcard@[i as int].1@));
            if text::ends_with(host, self.wildcard[i].0.as_str()) {
                return Some(self.wildcard[i].1.clone());
            }
            assert(all.skip(i as int).skip(1) == all.skip(i + 1));
            i = i + 1;
        }
        None
    }
}

// ---------------------------------------------------------------------------------------------
// Laws
// ---------------------------------------------------------------------------------------------

/// Longer suffixes stand first.
pub open spec fn longest_first(v: Wildcards) -> bool {
    forall|i: int, j: int|
        0 <= i < j < v.len() ==> byte_len((#[trigger] v[i]).0) >= byte_len((#[trigger] v[j]).0)
}

/// Placing a wildcard keeps the order, and adds the wildcard and nothing else.
pub proof fn lemma_placed(v: Wildcards, e: (Seq<char>, StaticTargetView))
    requires
        longest_first(v),
    ensures
        longest_first(placed(v, e)),
        placed(v, e).len() == v.len() + 1,
        forall|x: (Seq<char>, StaticTargetView)|
            #[trigger] placed(v, e).contains(x) <==> v.contains(x) || x == e,
    decreases v.len(),
{
    if v.len() == 0 || byte_len(v.last().0) >= byte_len(e.0) {
        let after = v.push(e);
        assert forall|i: int, j: int| 0 <= i < j < after.len() implies byte_len(
            (#[trigger] after[i]).0,
        ) >= byte_len((#[trigger] after[j]).0) by {
            if j == v.len() && i < v.len() - 1 {
                assert(byte_len(v[i].0) >= byte_len(v[v.len() - 1].0));
            }
        }
        assert forall|x: (Seq<char>, StaticTargetView)| after.contains(x) <==> v.contains(x) || x
            == e by {
            if v.contains(x) {
                assert(after[v.index_of(x)] == x);
            }
            if x == e {
                assert(after[v.len() as int] == x);
            }
            if after.contains(x) && x != e {
                let k = after.index_of(x);
                assert(v[k] == x);
            }
        }
    } else {
        let init = v.drop_last();
        assert forall|i: int, j: int| 0 <= i < j < init.len() implies byte_len(
            (#[trigger] init[i]).0,
        ) >= byte_len((#[trigger] init[j]).0) by {
            assert(byte_len(v[i].0) >= byte_len(v[j].0));
        }
        lemma_placed(init, e);
        let inner = placed(init, e);
        let after = inner.push(v.last());
        assert forall|x: (Seq<char>, StaticTargetView)| inner.contains(x) implies byte_len(x.0)
            >= byte_len(v.last().0) by {
            if x != e {
                let k = init.index_of(x);
                assert(init.contains(x));
                assert(v[k] == x);
                assert(byte_len(v[k].0) >= byte_len(v[v.len() - 1].0));
            }
        }
        assert forall|i: int, j: int| 0 <= i < j < after.len() implies byte_len(
            (#[trigger] after[i]).0,
        ) >= byte_len((#[trigger] after[j]).0) by {
            assert(inner.contains(inner[i]));
            if j < inner.len() {
                assert(byte_len(inner[i].0) >= byte_len(inner[j].0));
            }
        }
        assert forall|x: (Seq<char>, StaticTargetView)| after.contains(x) <==> v.contains(x) || x
            == e by {
            if v.contains(x) {
                let k = v.index_of(x);
                if k < init.len() {
                    assert(init[k] == x);
                    assert(inner.contains(x));
                    assert(after[inner.index_of(x)] == x);
                } else {
                    assert(after[inner.len() as int] == x);
                }
            }
            if x == e {
                assert(inner.contains(x));
                assert(after[inner.index_of(x)] == x);
            }
            if after.contains(x) {
                let k = after.index_of(x);
                if k < inner.len() {
                    assert(inner[k] == x);
                    assert(inner.contains(x));
                    if x != e {
                        assert(init.contains(x));
                        assert(v[init.index_of(x)] == x);
                    }
                } else {
                    assert(v[v.len() - 1] == x);
                }
            }
        }
    }
}

/// The table of any list of static routes has longer suffixes first, and no host name twice.
pub proof fn lemma_static_table(entries: Seq<config::StaticRouteView>)
    ensures
        longest_first(static_table(entries).wildcard),
        string_map::distinct_keys(static_table(entries).exact),
    decreases entries.len(),
{
    if entries.len() > 0 {
        lemma_static_table(entries.drop_last());
        let before = static_table(entries.drop_last());
        let e = entries.last();
        let target = StaticTargetView { ip: e.ip, port: e.port };
        match pattern_of(e.pattern) {
            Pattern::Exact(host) => {
                string_map::lemma_inserted(before.exact, host, target, host);
            },
            Pattern::Wildcard(suffix) => {
                lemma_placed(before.wildcard, (suffix, target));
            },
            Pattern::Invalid => {},
        }
    }
}

/// A shorter suffix of one text has fewer bytes.
pub proof fn lemma_suffix_bytes(short: Seq<char>, long: Seq<char>)
    requires
        short.is_suffix_of(long),
    ensures
        byte_len(short) <= byte_len(long),
        short.len() < long.len() ==> byte_len(short) < byte_len(long),
    decreases long.len(),
{
    if short.len() == long.len() {
        assert(short =~= long);
    } else {
        let rest = long.drop_first();
        assert(short.is_suffix_of(rest)) by {
            assert(rest.subrange(rest.len() - short.len(), rest.len() as int) =~= long.subrange(
                long.len() - short.len(),
                long.len() as int,
            ));
        }
        lemma_suffix_bytes(short, rest);
    }
}

/// What the first matching wildcard is: it matches, and none before it does.
proof fn lemma_first_wildcard(v: Wildcards, host: Seq<char>) -> (k: int)
    ensures
        first_wildcard(v, host) is None ==> k == v.len(),
        first_wildcard(v, host) is Some ==> 0 <= k < v.len() && first_wildcard(v, host) == Some(
            v[k].1,
        ) && v[k].0.is_suffix_of(host),
        forall|j: int| 0 <= j < k ==> !(#[trigger] v[j]).0.is_suffix_of(host),
    decreases v.len(),
{
    if v.len() == 0 || v[0].0.is_suffix_of(host) {
        0
    } else {
        let rest = v.skip(1);
        let k = lemma_first_wildcard(rest, host);
        assert forall|j: int| 0 <= j < k + 1 implies !(#[trigger] v[j]).0.is_suffix_of(host) by {
            if j > 0 {
                assert(rest[j - 1] == v[j]);
            }
        }
        k + 1
    }
}

/// An exact host name beats every wildcard.
pub proof fn lemma_exact_beats_wildcard(t: StaticRoutesView, host: Seq<char>)
    requires
        string_map::has_key(t.exact, host),
    ensures
        t.target(host) == string_map::lookup(t.exact, host),
{
}

/// Among the wildcards of a static route list that match a host without an exact route, the one
/// with the longest suffix gives the target; and there is a target wherever one matches.
pub proof fn lemma_longest_suffix_wins(
    entries: Seq<config::StaticRouteView>,
    host: Seq<char>,
    i: int,
)
    requires
        !string_map::has_key(static_table(entries).exact, host),
        0 <= i < static_table(entries).wildcard.len(),
        static_table(entries).wildcard[i].0.is_suffix_of(host),
    ensures
        exists|k: int|
            0 <= k < static_table(entries).wildcard.len() && (
            #[trigger] static_table(entries).wildcard[k]).0.is_suffix_of(host) && static_table(entries).target(host) == Some(static_table(entries).wildcard[k].1)
                && static_table(entries).wildcard[k].0.len()
                >= static_table(entries).wildcard[i].0.len(),
{
    let v = static_table(entries).wildcard;
    lemma_static_table(entries);
    let k = lemma_first_wildcard(v, host);
    assert(v[i].0.is_suffix_of(host));
    if v[k].0.len() < v[i].0.len() {
        assert(v[k].0.is_suffix_of(v[i].0)) by {
            assert(v[i].0.subrange(v[i].0.len() - v[k].0.len(), v[i].0.len() as int)
                =~= host.subrange(host.len() - v[k].0.len(), host.len() as int));
        }
        lemma_suffix_bytes(v[k].0, v[i].0);
        assert(k < i);
        assert(false);
    }
}

/// A wildcard `*.D` matches the hosts that end in `.D`, whatever comes before that, and not `D`
/// itself.
pub proof fn lemma_wildcard_matches(domain: Seq<char>, label: Seq<char>)
    requires
        domain.len() > 0,
        !domain.contains('*'),
    ensures
        pattern_of("*."@ + domain) == Pattern::Wildcard(seq!['.'] + domain),
        (seq!['.'] + domain).is_suffix_of(label + seq!['.'] + domain),
        !(seq!['.'] + domain).is_suffix_of(domain),
{
    reveal_strlit("*.");
    let s = "*."@ + domain;
    assert("*."@.is_prefix_of(s)) by {
        assert(s.subrange(0, 2) =~= "*."@);
    }
    assert(s.skip(2) =~= domain);
    assert(s.skip(1) =~= seq!['.'] + domain);
    let suffix = seq!['.'] + domain;
    let host = label + seq!['.'] + domain;
    assert(host.subrange(host.len() - suffix.len(), host.len() as int) =~= suffix);
}

} // verus!
