//! What holds of the static routes: where the requests for a host go, told from the list of routes
//! alone.

use crate::config::StaticRouteView;
use crate::statics;
use crate::statics::{Pattern, StaticTargetView, Wildcards};
use crate::string_map;
use vstd::prelude::*;

verus! {

/// The route is for this host and no other: the host is its whole pattern, without a `*`.
pub open spec fn names(e: StaticRouteView, host: Seq<char>) -> bool {
    e.pattern == host && !host.contains('*')
}

/// The route is a valid wildcard: its pattern is `*.` and something that holds no other `*`.
pub open spec fn is_wildcard(e: StaticRouteView) -> bool {
    &&& e.pattern.len() > 2
    &&& e.pattern[0] == '*'
    &&& e.pattern[1] == '.'
    &&& !e.pattern.skip(2).contains('*')
}

/// The route is a valid wildcard, and the host ends in what follows its `*`.
pub open spec fn covers(e: StaticRouteView, host: Seq<char>) -> bool {
    is_wildcard(e) && e.pattern.skip(1).is_suffix_of(host)
}

/// What the patterns of the routes mean.
pub proof fn lemma_pattern(e: StaticRouteView)
    ensures
        match statics::pattern_of(e.pattern) {
            Pattern::Exact(host) => names(e, host),
            Pattern::Wildcard(suffix) => is_wildcard(e) && e.pattern == seq!['*'] + suffix,
            Pattern::Invalid => e.pattern.contains('*') && !is_wildcard(e),
        },
        !e.pattern.contains('*') ==> statics::pattern_of(e.pattern) is Exact,
        is_wildcard(e) ==> statics::pattern_of(e.pattern) is Wildcard,
{
    reveal_strlit("*.");
    let s = e.pattern;
    if "*."@.is_prefix_of(s) {
        assert(s.subrange(0, 2) == "*."@);
        assert(s[0] == s.subrange(0, 2)[0] && s[1] == s.subrange(0, 2)[1]);
        assert(s.contains(s[0]));
        assert(s =~= seq!['*'] + s.skip(1));
    } else if s.len() >= 2 {
        assert(!(s[0] == '*' && s[1] == '.')) by {
            if s[0] == '*' && s[1] == '.' {
                assert(s.subrange(0, 2) =~= "*."@);
            }
        }
    }
}

/// A host that some route names goes to the target of the last such route, whatever wildcards stand
/// before or after it.
pub proof fn lemma_last_named_wins(entries: Seq<StaticRouteView>, k: int)
    requires
        0 <= k < entries.len(),
        !entries[k].pattern.contains('*'),
        forall|j: int| k < j < entries.len() ==> (#[trigger] entries[j]).pattern
            != entries[k].pattern,
    ensures
        statics::static_table(entries).target(entries[k].pattern) == Some(
            StaticTargetView { ip: entries[k].ip, port: entries[k].port },
        ),
        string_map::lookup(statics::static_table(entries).exact, entries[k].pattern) == Some(
            StaticTargetView { ip: entries[k].ip, port: entries[k].port },
        ),
    decreases entries.len(),
{
    let init = entries.drop_last();
    let host = entries[k].pattern;
    let before = statics::static_table(init);
    let e = entries.last();
    let target = StaticTargetView { ip: e.ip, port: e.port };
    lemma_pattern(e);
    if k == entries.len() - 1 {
        string_map::lemma_inserted(before.exact, host, target, host);
    } else {
        assert(init[k] == entries[k]);
        assert forall|j: int| k < j < init.len() implies (#[trigger] init[j]).pattern
            != init[k].pattern by {
            assert(entries[j].pattern != entries[k].pattern);
        }
        lemma_last_named_wins(init, k);
        assert(entries[entries.len() - 1].pattern != host);
        match statics::pattern_of(e.pattern) {
            Pattern::Exact(h) => {
                string_map::lemma_inserted(before.exact, h, target, host);
            },
            _ => {},
        }
    }
}

/// The table has exactly the hosts that some route names.
pub proof fn lemma_named_hosts(entries: Seq<StaticRouteView>, host: Seq<char>)
    ensures
        string_map::has_key(statics::static_table(entries).exact, host) <==> exists|k: int|
            0 <= k < entries.len() && names(#[trigger] entries[k], host),
    decreases entries.len(),
{
    if entries.len() > 0 {
        let init = entries.drop_last();
        lemma_named_hosts(init, host);
        let before = statics::static_table(init);
        let e = entries.last();
        let target = StaticTargetView { ip: e.ip, port: e.port };
        lemma_pattern(e);
        match statics::pattern_of(e.pattern) {
            Pattern::Exact(h) => {
                string_map::lemma_inserted(before.exact, h, target, host);
                if h == host {
                    assert(names(entries[entries.len() - 1], host));
                }
            },
            _ => {
                assert(!names(e, host));
            },
        }
        if exists|k: int| 0 <= k < init.len() && names(#[trigger] init[k], host) {
            let k = choose|k: int| 0 <= k < init.len() && names(#[trigger] init[k], host);
            assert(names(entries[k], host));
        }
        if exists|k: int| 0 <= k < entries.len() && names(#[trigger] entries[k], host) {
            let k = choose|k: int| 0 <= k < entries.len() && names(#[trigger] entries[k], host);
            if k < init.len() {
                assert(names(init[k], host));
            }
        }
    }
}

/// The wildcards of the table are exactly the valid wildcards of the list, with their targets: none
/// is left out, whatever routes stand before or after it, and there is nothing else.
pub proof fn lemma_all_wildcards(
    entries: Seq<StaticRouteView>,
    suffix: Seq<char>,
    target: StaticTargetView,
)
    ensures
        statics::static_table(entries).wildcard.contains((suffix, target)) <==> exists|k: int|
            0 <= k < entries.len() && is_wildcard(#[trigger] entries[k]) && entries[k].pattern
                == seq!['*'] + suffix && target == (StaticTargetView {
                ip: entries[k].ip,
                port: entries[k].port,
            }),
    decreases entries.len(),
{
    if entries.len() > 0 {
        let init = entries.drop_last();
        lemma_all_wildcards(init, suffix, target);
        statics::lemma_static_table(init);
        let before = statics::static_table(init);
        let after = statics::static_table(entries);
        let e = entries.last();
        let own = StaticTargetView { ip: e.ip, port: e.port };
        lemma_pattern(e);
        match statics::pattern_of(e.pattern) {
            Pattern::Wildcard(s) => {
                statics::lemma_placed(before.wildcard, (s, own));
                assert(after.wildcard.contains((suffix, target)) <==> before.wildcard.contains(
                    (suffix, target),
                ) || (suffix, target) == (s, own));
                if (suffix, target) == (s, own) {
                    assert(is_wildcard(entries[entries.len() - 1]));
                }
            },
            _ => {},
        }
        if exists|k: int|
            0 <= k < init.len() && is_wildcard(#[trigger] init[k]) && init[k].pattern == seq!['*']
                + suffix && target == (StaticTargetView { ip: init[k].ip, port: init[k].port }) {
            let k = choose|k: int|
                0 <= k < init.len() && is_wildcard(#[trigger] init[k]) && init[k].pattern
                    == seq!['*'] + suffix && target == (StaticTargetView {
                    ip: init[k].ip,
                    port: init[k].port,
                });
            assert(entries[k] == init[k]);
        }
        if exists|k: int|
            0 <= k < entries.len() && is_wildcard(#[trigger] entries[k]) && entries[k].pattern
                == seq!['*'] + suffix && target == (StaticTargetView {
                ip: entries[k].ip,
                port: entries[k].port,
            }) {
            let k = choose|k: int|
                0 <= k < entries.len() && is_wildcard(#[trigger] entries[k]) && entries[k].pattern
                    == seq!['*'] + suffix && target == (StaticTargetView {
                    ip: entries[k].ip,
                    port: entries[k].port,
                });
            if k < init.len() {
                assert(init[k] == entries[k]);
            } else {
                let s = statics::pattern_of(e.pattern)->Wildcard_0;
                assert(suffix =~= (seq!['*'] + suffix).skip(1));
                assert(s =~= (seq!['*'] + s).skip(1));
            }
        }
    }
}

/// The first wildcard that matches a host.
spec fn first_match(v: Wildcards, host: Seq<char>) -> Option<(Seq<char>, StaticTargetView)>
    decreases v.len(),
{
    if v.len() == 0 {
        None
    } else if v[0].0.is_suffix_of(host) {
        Some(v[0])
    } else {
        first_match(v.skip(1), host)
    }
}

proof fn lemma_first_match(v: Wildcards, host: Seq<char>)
    ensures
        statics::first_wildcard(v, host) == (match first_match(v, host) {
            Some(x) => Some(x.1),
            None => None,
        }),
        first_match(v, host) matches Some(x) ==> v.contains(x) && x.0.is_suffix_of(host),
    decreases v.len(),
{
    if v.len() > 0 && !v[0].0.is_suffix_of(host) {
        let rest = v.skip(1);
        lemma_first_match(rest, host);
        match first_match(rest, host) {
            Some(x) => {
                let k = rest.index_of(x);
                assert(v[k + 1] == x);
            },
            None => {},
        }
    }
}

proof fn lemma_first_match_joined(a: Wildcards, b: Wildcards, host: Seq<char>)
    ensures
        first_match(a + b, host) == (match first_match(a, host) {
            Some(x) => Some(x),
            None => first_match(b, host),
        }),
    decreases a.len(),
{
    if a.len() == 0 {
        assert(a + b =~= b);
    } else {
        assert((a + b)[0] == a[0]);
        if !a[0].0.is_suffix_of(host) {
            assert((a + b).skip(1) =~= a.skip(1) + b);
            lemma_first_match_joined(a.skip(1), b, host);
        }
    }
}

/// Where a wildcard is put: behind those with suffixes at least as long, before all others.
proof fn lemma_place(v: Wildcards, e: (Seq<char>, StaticTargetView)) -> (i: int)
    requires
        statics::longest_first(v),
    ensures
        0 <= i <= v.len(),
        statics::placed(v, e) == v.take(i) + (seq![e] + v.skip(i)),
        forall|j: int| 0 <= j < i ==> statics::byte_len((#[trigger] v[j]).0) >= statics::byte_len(
            e.0,
        ),
        forall|j: int| i <= j < v.len() ==> statics::byte_len((#[trigger] v[j]).0)
            < statics::byte_len(e.0),
    decreases v.len(),
{
    if v.len() == 0 || statics::byte_len(v.last().0) >= statics::byte_len(e.0) {
        assert(statics::placed(v, e) =~= v.take(v.len() as int) + (seq![e] + v.skip(
            v.len() as int,
        )));
        assert forall|j: int| 0 <= j < v.len() implies statics::byte_len((#[trigger] v[j]).0)
            >= statics::byte_len(e.0) by {
            if j < v.len() - 1 {
                assert(statics::byte_len(v[j].0) >= statics::byte_len(v[v.len() - 1].0));
            }
        }
        v.len() as int
    } else {
        let init = v.drop_last();
        assert forall|i: int, j: int| 0 <= i < j < init.len() implies statics::byte_len(
            (#[trigger] init[i]).0,
        ) >= statics::byte_len((#[trigger] init[j]).0) by {
            assert(statics::byte_len(v[i].0) >= statics::byte_len(v[j].0));
        }
        let i = lemma_place(init, e);
        assert(statics::placed(v, e) =~= v.take(i) + (seq![e] + v.skip(i))) by {
            assert(init.take(i) =~= v.take(i));
            assert(init.skip(i).push(v.last()) =~= v.skip(i));
        }
        assert forall|j: int| 0 <= j < i implies statics::byte_len((#[trigger] v[j]).0)
            >= statics::byte_len(e.0) by {
            assert(init[j] == v[j]);
        }
        assert forall|j: int| i <= j < v.len() implies statics::byte_len((#[trigger] v[j]).0)
            < statics::byte_len(e.0) by {
            if j < init.len() {
                assert(init[j] == v[j]);
            }
        }
        i
    }
}

/// Of two suffixes of one host the one with more characters has more bytes.
proof fn lemma_longer(a: Seq<char>, b: Seq<char>, host: Seq<char>)
    requires
        a.is_suffix_of(host),
        b.is_suffix_of(host),
    ensures
        a.len() < b.len() <==> statics::byte_len(a) < statics::byte_len(b),
        a.len() == b.len() ==> a == b,
{
    if a.len() <= b.len() {
        assert(b.subrange(b.len() - a.len(), b.len() as int) =~= host.subrange(
            host.len() - a.len(),
            host.len() as int,
        ));
        statics::lemma_suffix_bytes(a, b);
    } else {
        assert(a.subrange(a.len() - b.len(), a.len() as int) =~= host.subrange(
            host.len() - b.len(),
            host.len() as int,
        ));
        statics::lemma_suffix_bytes(b, a);
    }
    if a.len() == b.len() {
        assert(a =~= b);
    }
}

/// A wildcard that is added counts for a host where it matches and none that matches is as long.
proof fn lemma_match_placed(v: Wildcards, e: (Seq<char>, StaticTargetView), host: Seq<char>)
    requires
        statics::longest_first(v),
    ensures
        first_match(statics::placed(v, e), host) == (if !e.0.is_suffix_of(host) {
            first_match(v, host)
        } else {
            match first_match(v, host) {
                Some(x) => if x.0.len() >= e.0.len() {
                    Some(x)
                } else {
                    Some(e)
                },
                None => Some(e),
            }
        }),
{
    let i = lemma_place(v, e);
    let (a, b) = (v.take(i), v.skip(i));
    lemma_first_match_joined(a, seq![e] + b, host);
    lemma_first_match_joined(seq![e], b, host);
    lemma_first_match_joined(a, b, host);
    assert(a + b =~= v);
    assert(seq![e].skip(1).len() == 0);
    assert(first_match(seq![e].skip(1), host) is None);
    lemma_first_match(a, host);
    lemma_first_match(b, host);
    if e.0.is_suffix_of(host) {
        match first_match(a, host) {
            Some(x) => {
                let k = a.index_of(x);
                assert(v[k] == x);
                lemma_longer(x.0, e.0, host);
            },
            None => match first_match(b, host) {
                Some(x) => {
                    let k = b.index_of(x);
                    assert(v[k + i] == x);
                    lemma_longer(x.0, e.0, host);
                },
                None => {},
            },
        }
    }
}

/// The first match of a table is the earliest of the routes with the longest pattern that cover the
/// host.
proof fn lemma_match_of_table(entries: Seq<StaticRouteView>, host: Seq<char>) -> (k: int)
    ensures
        match first_match(statics::static_table(entries).wildcard, host) {
            Some(x) => {
                &&& 0 <= k < entries.len()
                &&& covers(entries[k], host)
                &&& x.0 == entries[k].pattern.skip(1)
                &&& x.1 == StaticTargetView { ip: entries[k].ip, port: entries[k].port }
                &&& forall|j: int|
                    0 <= j < entries.len() && covers(#[trigger] entries[j], host) ==> (
                    entries[j].pattern.len() < entries[k].pattern.len() || (
                    entries[j].pattern.len() == entries[k].pattern.len() && k <= j))
            },
            None => forall|j: int|
                0 <= j < entries.len() ==> !covers(#[trigger] entries[j], host),
        },
    decreases entries.len(),
{
    if entries.len() == 0 {
        0
    } else {
        let init = entries.drop_last();
        let m = lemma_match_of_table(init, host);
        statics::lemma_static_table(init);
        let v = statics::static_table(init).wildcard;
        let last = entries.len() - 1;
        let e = entries.last();
        assert(entries[last] == e);
        let own = StaticTargetView { ip: e.ip, port: e.port };
        lemma_pattern(e);
        let found = first_match(v, host);
        let longer = match found {
            Some(x) => x.0.len() < e.pattern.len() - 1,
            None => true,
        };
        let k = if covers(e, host) && longer {
            last
        } else {
            m
        };
        match statics::pattern_of(e.pattern) {
            Pattern::Wildcard(s) => {
                assert(s =~= e.pattern.skip(1));
                lemma_match_placed(v, (s, own), host);
                assert(covers(e, host) <==> s.is_suffix_of(host));
            },
            _ => {
                assert(!covers(e, host));
            },
        }
        if found is Some {
            assert(init[m] == entries[m]);
        }
        assert forall|j: int| 0 <= j < entries.len() && covers(#[trigger] entries[j], host) implies (
        found is Some || covers(e, host)) && (entries[j].pattern.len() < entries[k].pattern.len()
            || (entries[j].pattern.len() == entries[k].pattern.len() && k <= j)) by {
            if j < last {
                assert(init[j] == entries[j]);
                assert(covers(init[j], host));
            }
        }
        k
    }
}

/// A host that no route names goes to the target of the route with the longest pattern that covers
/// it, the first of those with that pattern.
pub proof fn lemma_longest_cover_wins(entries: Seq<StaticRouteView>, host: Seq<char>, k: int)
    requires
        forall|j: int| 0 <= j < entries.len() ==> !names(#[trigger] entries[j], host),
        0 <= k < entries.len(),
        covers(entries[k], host),
        forall|j: int|
            0 <= j < entries.len() && covers(#[trigger] entries[j], host) ==> (
            entries[j].pattern.len() < entries[k].pattern.len() || (entries[j].pattern.len()
                == entries[k].pattern.len() && k <= j)),
    ensures
        statics::static_table(entries).target(host) == Some(
            StaticTargetView { ip: entries[k].ip, port: entries[k].port },
        ),
{
    lemma_named_hosts(entries, host);
    let v = statics::static_table(entries).wildcard;
    lemma_first_match(v, host);
    let m = lemma_match_of_table(entries, host);
    assert(first_match(v, host) is Some);
    assert(covers(entries[m], host));
    assert(m == k);
}

/// A host that no route names or covers goes nowhere.
pub proof fn lemma_no_static_route(entries: Seq<StaticRouteView>, host: Seq<char>)
    requires
        forall|j: int| 0 <= j < entries.len() ==> !names(#[trigger] entries[j], host),
        forall|j: int| 0 <= j < entries.len() ==> !covers(#[trigger] entries[j], host),
    ensures
        statics::static_table(entries).target(host) is None,
{
    lemma_named_hosts(entries, host);
    let v = statics::static_table(entries).wildcard;
    lemma_first_match(v, host);
    let m = lemma_match_of_table(entries, host);
    match first_match(v, host) {
        Some(x) => {
            assert(covers(entries[m], host));
        },
        None => {},
    }
}

} // verus!
