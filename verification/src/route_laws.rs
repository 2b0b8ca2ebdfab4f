//! What a host or a port resolves to, told from the containers and the static routes alone.

use crate::container;
use crate::container::ContainerView;
use crate::router;
use crate::router::{ConflictView, EntryView, ResultView, RouterView};
use crate::router_laws;
use crate::sequences;
use crate::statics;
use crate::string_map;
use crate::text;
use crate::text_laws;
use vstd::prelude::*;

verus! {

// ---------------------------------------------------------------------------------------------
// Hosts of names
// ---------------------------------------------------------------------------------------------

/// Only decimal digits, and at least one.
pub open spec fn is_replica(s: Seq<char>) -> bool {
    s.len() > 0 && forall|i: int| 0 <= i < s.len() ==> '0' <= #[trigger] s[i] <= '9'
}

/// A name with a replica number at its end stands for what comes before the number.
pub proof fn lemma_replica_name(slashes: nat, head: Seq<char>, replica: Seq<char>)
    requires
        head.len() > 0 ==> head[0] != '/',
        is_replica(replica),
    ensures
        router::host_of_name(
            text_laws::repeated('/', slashes) + (head + seq!['-'] + replica),
        ) == head,
{
    let bare = head + seq!['-'] + replica;
    assert(bare[0] != '/');
    text_laws::lemma_trim_leading_of(bare, '/', slashes);
    assert(!replica.contains('-'));
    text::lemma_cut_last(head, replica, '-');
    assert forall|i: int| 0 <= i < replica.len() implies crate::number::is_digit(
        #[trigger] replica[i],
    ) by {}
}

/// Any other name stands for itself, without its leading slashes.
pub proof fn lemma_plain_name(slashes: nat, bare: Seq<char>)
    requires
        bare.len() > 0 ==> bare[0] != '/',
        forall|head: Seq<char>, tail: Seq<char>|
            bare == #[trigger] (head + seq!['-'] + tail) ==> !is_replica(tail),
    ensures
        router::host_of_name(text_laws::repeated('/', slashes) + bare) == bare,
{
    text_laws::lemma_trim_leading_of(bare, '/', slashes);
    text_laws::lemma_cut_last_parts(bare, '-');
    match text::cut_last(bare, '-') {
        Some((head, tail)) => {
            assert(bare == head + seq!['-'] + tail);
            assert(!is_replica(tail));
            if crate::number::all_digits(tail) && tail.len() > 0 {
                assert forall|i: int| 0 <= i < tail.len() implies '0' <= #[trigger] tail[i]
                    <= '9' by {
                    assert(crate::number::is_digit(tail[i]));
                }
            }
        },
        None => {},
    }
}

// ---------------------------------------------------------------------------------------------
// Ports of hosts
// ---------------------------------------------------------------------------------------------

/// The first route of `c` for `host` is the one at `i`.
pub open spec fn first_route(c: ContainerView, host: Seq<char>, i: int) -> bool {
    &&& 0 <= i < c.routes.len()
    &&& c.routes[i].host == host
    &&& forall|j: int| 0 <= j < i ==> (#[trigger] c.routes[j]).host != host
}

/// `port` is the container's own port, or 0 where it has none.
pub open spec fn is_own_port(c: ContainerView, port: u16) -> bool {
    c.port == Some(port) || (c.port is None && port == 0)
}

/// `port` is the one to use on `c` for `host`: that of its first route for the host, where that
/// names one, and otherwise the container's own.
pub open spec fn is_port_for(c: ContainerView, host: Seq<char>, port: u16) -> bool {
    &&& forall|i: int| #[trigger]
        first_route(c, host, i) ==> c.routes[i].port == Some(port) || (c.routes[i].port is None
            && is_own_port(c, port))
    &&& (forall|i: int| !#[trigger] first_route(c, host, i)) ==> is_own_port(c, port)
}

proof fn lemma_no_named_port(routes: Seq<container::RouteView>, host: Seq<char>)
    requires
        forall|j: int| 0 <= j < routes.len() ==> (#[trigger] routes[j]).host != host,
    ensures
        router::named_port(routes, host) is None,
    decreases routes.len(),
{
    if routes.len() > 0 {
        let rest = routes.skip(1);
        assert forall|j: int| 0 <= j < rest.len() implies (#[trigger] rest[j]).host != host by {
            assert(rest[j] == routes[j + 1]);
        }
        lemma_no_named_port(rest, host);
    }
}

proof fn lemma_first_route(c: ContainerView, host: Seq<char>, n: nat) -> (i: int)
    requires
        n <= c.routes.len(),
        exists|j: int| 0 <= j < n && (#[trigger] c.routes[j]).host == host,
    ensures
        first_route(c, host, i),
    decreases n,
{
    if exists|j: int| 0 <= j < n - 1 && (#[trigger] c.routes[j]).host == host {
        lemma_first_route(c, host, (n - 1) as nat)
    } else {
        n - 1
    }
}

/// The port of an entry is the one to use for its host.
proof fn lemma_entry_port(e: EntryView, host: Seq<char>)
    requires
        e.port == router::named_port(e.container.routes, host),
    ensures
        is_port_for(e.container, host, e.target_port()),
{
    let c = e.container;
    assert forall|i: int| #[trigger] first_route(c, host, i) implies c.routes[i].port == Some(
        e.target_port(),
    ) || (c.routes[i].port is None && is_own_port(c, e.target_port())) by {
        router_laws::lemma_named_port(c.routes, i);
    }
    if forall|i: int| !#[trigger] first_route(c, host, i) {
        assert forall|j: int| 0 <= j < c.routes.len() implies (#[trigger] c.routes[j]).host
            != host by {
            if c.routes[j].host == host {
                let i = lemma_first_route(c, host, c.routes.len());
                assert(first_route(c, host, i));
            }
        }
        lemma_no_named_port(c.routes, host);
    }
}

// ---------------------------------------------------------------------------------------------
// What a host resolves to
// ---------------------------------------------------------------------------------------------

/// Some container answers for `host`.
pub open spec fn is_answered(containers: Seq<ContainerView>, host: Seq<char>) -> bool {
    exists|i: int| 0 <= i < containers.len() && router_laws::answers_for(#[trigger] containers[i], host)
}

/// `host` is something, which is not empty, followed by `above`.
pub open spec fn is_below(host: Seq<char>, above: Seq<char>) -> bool {
    host.len() > above.len() && host.skip(host.len() - above.len()) == above
}

proof fn lemma_is_below(host: Seq<char>, above: Seq<char>)
    ensures
        statics::is_proper_suffix(above, host) <==> is_below(host, above),
{
    if host.len() > above.len() {
        assert(host.skip(host.len() - above.len()) =~= host.subrange(
            host.len() - above.len(),
            host.len() as int,
        ));
    }
}

proof fn lemma_distinct_hosts(routes: router::Routes, hosts: Seq<(Seq<char>, Option<u16>)>, c: ContainerView)
    requires
        string_map::distinct_keys(routes),
    ensures
        string_map::distinct_keys(router::with_hosts(routes, hosts, c)),
    decreases hosts.len(),
{
    if hosts.len() > 0 {
        let before = router::with_hosts(routes, hosts.drop_last(), c);
        lemma_distinct_hosts(routes, hosts.drop_last(), c);
        let (h, port) = hosts.last();
        let v = router::with_entry(router::entries_of(before, h), c, port);
        string_map::lemma_inserted(before, h, v, h);
    }
}

/// No host stands twice in the table.
proof fn lemma_distinct_table(containers: Seq<ContainerView>)
    ensures
        string_map::distinct_keys(router::routes_of(containers)),
    decreases containers.len(),
{
    if containers.len() > 0 {
        let c = containers.last();
        lemma_distinct_table(containers.drop_last());
        lemma_distinct_hosts(
            router::routes_of(containers.drop_last()),
            router::hosts_of(c),
            c,
        );
    }
}

/// The entries that stand in the table under a host are its candidates, of which there is one.
proof fn lemma_table_entry(containers: Seq<ContainerView>, m: int)
    requires
        0 <= m < router::routes_of(containers).len(),
    ensures
        ({
            let (host, v) = router::routes_of(containers)[m];
            &&& v == router_laws::candidates(containers, host)
            &&& v.len() > 0
            &&& is_answered(containers, host)
        }),
{
    let routes = router::routes_of(containers);
    let (host, v) = routes[m];
    lemma_distinct_table(containers);
    assert forall|j: int| 0 <= j < m implies (#[trigger] routes[j]).0 != host by {
        assert(routes[j].0 != routes[m].0);
    }
    string_map::lemma_position_is(routes, host, m);
    router_laws::lemma_candidates(containers, host);
    router_laws::lemma_candidates_members(containers, host);
    let i = choose|i: int|
        0 <= i < containers.len() && router_laws::answers_for(#[trigger] containers[i], host);
    assert(router::has_entry(router_laws::candidates(containers, host), containers[i].id));
}

proof fn lemma_entries_above(routes: router::Routes, host: Seq<char>) -> (m: int)
    ensures
        match router::entries_above(routes, host) {
            Some(v) => 0 <= m < routes.len() && v == routes[m].1 && is_below(host, routes[m].0),
            None => forall|j: int| 0 <= j < routes.len() ==> !is_below(host, (#[trigger] routes[j]).0),
        },
    decreases routes.len(),
{
    if routes.len() == 0 {
        0
    } else {
        lemma_is_below(host, routes[0].0);
        if statics::is_proper_suffix(routes[0].0, host) {
            0
        } else {
            let rest = routes.skip(1);
            let m = lemma_entries_above(rest, host);
            assert forall|j: int| 1 <= j < routes.len() implies #[trigger] routes[j] == rest[j - 1] by {}
            m + 1
        }
    }
}

/// The entry that answers for a host, and the host in the table that it stands under.
proof fn lemma_entry_for(containers: Seq<ContainerView>, host: Seq<char>) -> (key: Seq<char>)
    ensures
        match router::entry_for(router::routes_of(containers), host) {
            Some(e) => {
                &&& is_answered(containers, host) ==> key == host
                &&& key == host || is_below(host, key)
                &&& key == host ==> is_answered(containers, host)
                &&& containers.contains(e.container)
                &&& router_laws::answers_for(e.container, key)
                &&& is_port_for(e.container, key, e.target_port())
                &&& router::chosen(router_laws::candidates(containers, key)) == Some(e)
            },
            None => !is_answered(containers, host) && forall|above: Seq<char>|
                is_below(host, above) ==> !#[trigger] is_answered(containers, above),
        },
{
    let routes = router::routes_of(containers);
    router_laws::lemma_candidates(containers, host);
    router_laws::lemma_candidates_members(containers, host);
    let own = router_laws::candidates(containers, host);
    router_laws::lemma_chosen(own);
    if own.len() > 0 {
        lemma_candidate(containers, host, router::chosen(own)->0);
        host
    } else {
        assert(!is_answered(containers, host)) by {
            if is_answered(containers, host) {
                let i = choose|i: int|
                    0 <= i < containers.len() && router_laws::answers_for(
                        #[trigger] containers[i],
                        host,
                    );
                assert(router::has_entry(own, containers[i].id));
            }
        }
        let m = lemma_entries_above(routes, host);
        match router::entries_above(routes, host) {
            Some(v) => {
                lemma_table_entry(containers, m);
                router_laws::lemma_chosen(v);
                lemma_candidate(containers, routes[m].0, router::chosen(v)->0);
                routes[m].0
            },
            None => {
                assert forall|above: Seq<char>| is_below(host, above) implies !#[trigger]
                    is_answered(containers, above) by {
                    if is_answered(containers, above) {
                        router_laws::lemma_candidates(containers, above);
                        let j = choose|j: int|
                            0 <= j < routes.len() && (#[trigger] routes[j]).0 == above;
                        assert(!is_below(host, routes[j].0));
                    }
                }
                host
            },
        }
    }
}

proof fn lemma_candidate(containers: Seq<ContainerView>, key: Seq<char>, e: EntryView)
    requires
        router_laws::candidates(containers, key).contains(e),
    ensures
        containers.contains(e.container),
        router_laws::answers_for(e.container, key),
        is_port_for(e.container, key, e.target_port()),
        is_answered(containers, key),
{
    let v = router_laws::candidates(containers, key);
    let k = v.index_of(e);
    assert(v[k] == e);
    router_laws::lemma_candidates_members(containers, key);
    router_laws::lemma_route_port(containers, key, k);
    lemma_entry_port(e, key);
    assert(router_laws::answers_for(containers[containers.index_of(e.container)], key));
}

/// A host that some container answers for resolves to a container that answers for it, on the port
/// that this container has for the host: that of its first route for the host, where that names one.
pub proof fn lemma_answered_port(containers: Seq<ContainerView>, r: RouterView, host: Seq<char>)
    requires
        r.routes == router::routes_of(containers),
        is_answered(containers, host),
    ensures
        r.resolution(host) matches Some(ResultView::Dynamic(c, port)) && containers.contains(c)
            && router_laws::answers_for(c, host) && is_port_for(c, host, port),
{
    let key = lemma_entry_for(containers, host);
}

/// A host that no container answers for resolves to a container wherever the end of the host is one
/// that some container answers for: to a container that answers for such an end, on its port there.
pub proof fn lemma_answered_from_above(
    containers: Seq<ContainerView>,
    r: RouterView,
    label: Seq<char>,
    above: Seq<char>,
)
    requires
        r.routes == router::routes_of(containers),
        label.len() > 0,
        is_answered(containers, above),
        !is_answered(containers, label + above),
    ensures
        r.resolution(label + above) matches Some(ResultView::Dynamic(c, port))
            && containers.contains(c) && exists|key: Seq<char>| #[trigger]
            is_below(label + above, key) && router_laws::answers_for(c, key) && is_port_for(
                c,
                key,
                port,
            ),
{
    let host = label + above;
    let key = lemma_entry_for(containers, host);
    assert(host.skip(host.len() - above.len()) =~= above);
    assert(is_below(host, above));
    match router::entry_for(r.routes, host) {
        Some(e) => {
            assert(is_below(host, key));
        },
        None => {
            assert(!is_answered(containers, above));
        },
    }
}

/// A host that no container answers for, itself or by one of its ends, goes where the static routes
/// say.
pub proof fn lemma_unanswered(containers: Seq<ContainerView>, r: RouterView, host: Seq<char>)
    requires
        r.routes == router::routes_of(containers),
        !is_answered(containers, host),
        forall|above: Seq<char>| is_below(host, above) ==> !#[trigger] is_answered(containers, above),
    ensures
        r.resolution(host) is None <==> r.statics.target(host) is None,
        r.statics.target(host) matches Some(t) ==> r.resolution(host) == Some(ResultView::Static(t)),
{
    let key = lemma_entry_for(containers, host);
    match router::entry_for(r.routes, host) {
        Some(e) => {
            assert(is_answered(containers, key)) by {
                assert(router_laws::answers_for(
                    containers[containers.index_of(e.container)],
                    key,
                ));
            }
        },
        None => {},
    }
}

// ---------------------------------------------------------------------------------------------
// Which container is chosen
// ---------------------------------------------------------------------------------------------

/// The first creation time is known, and is after the second or the second is not known.
pub open spec fn is_newer(a: Option<i64>, b: Option<i64>) -> bool {
    a is Some && (b is None || a->0 > b->0)
}

/// `a` comes before `b` in every choice: it runs and `b` does not; or both run or do not, and it is
/// newer.
pub open spec fn is_better(a: ContainerView, b: ContainerView) -> bool {
    (a.running && !b.running) || (a.running == b.running && is_newer(a.created, b.created))
}

/// The entry that is chosen is the one that no other is better than, the last of them.
pub proof fn lemma_last_of_best(v: Seq<EntryView>, k: int)
    requires
        0 <= k < v.len(),
        forall|i: int| 0 <= i < v.len() ==> !is_better((#[trigger] v[i]).container, v[k].container),
        forall|i: int| k < i < v.len() ==> is_better(v[k].container, (#[trigger] v[i]).container),
    ensures
        router::chosen(v) == Some(v[k]),
    decreases v.len(),
{
    let init = v.drop_last();
    router_laws::lemma_chosen(init);
    if k == v.len() - 1 {
        match router::chosen(init) {
            Some(b) => {
                let i = init.index_of(b);
                assert(v[i] == b);
            },
            None => {},
        }
    } else {
        assert forall|i: int| 0 <= i < init.len() implies !is_better(
            (#[trigger] init[i]).container,
            init[k].container,
        ) by {
            assert(init[i] == v[i]);
        }
        assert forall|i: int| k < i < init.len() implies is_better(
            init[k].container,
            (#[trigger] init[i]).container,
        ) by {
            assert(init[i] == v[i]);
        }
        lemma_last_of_best(init, k);
        assert(v[v.len() - 1] == v.last());
    }
}

/// The container that is chosen behind a port is the one that no other is better than, the last of
/// them.
pub proof fn lemma_last_of_best_container(v: Seq<ContainerView>, k: int)
    requires
        0 <= k < v.len(),
        forall|i: int| 0 <= i < v.len() ==> !is_better(#[trigger] v[i], v[k]),
        forall|i: int| k < i < v.len() ==> is_better(v[k], #[trigger] v[i]),
    ensures
        router::chosen_container(v) == Some(v[k]),
    decreases v.len(),
{
    let init = v.drop_last();
    router_laws::lemma_chosen_container(init);
    if k == v.len() - 1 {
        match router::chosen_container(init) {
            Some(b) => {
                let i = init.index_of(b);
                assert(v[i] == b);
            },
            None => {},
        }
    } else {
        assert forall|i: int| 0 <= i < init.len() implies !is_better(#[trigger] init[i], init[k]) by {
            assert(init[i] == v[i]);
        }
        assert forall|i: int| k < i < init.len() implies is_better(init[k], #[trigger] init[i]) by {
            assert(init[i] == v[i]);
        }
        lemma_last_of_best_container(init, k);
        assert(v[v.len() - 1] == v.last());
    }
}

/// No container that answers for a host is better than the one that the host resolves to, where no
/// id is there twice.
pub proof fn lemma_best_answers(
    containers: Seq<ContainerView>,
    r: RouterView,
    host: Seq<char>,
    i: int,
)
    requires
        r.routes == router::routes_of(containers),
        router_laws::distinct_ids(containers),
        0 <= i < containers.len(),
        router_laws::answers_for(containers[i], host),
    ensures
        r.resolution(host) matches Some(ResultView::Dynamic(c, _)) && !is_better(containers[i], c),
{
    router_laws::lemma_answered_host_resolves(containers, r, host, i);
}

/// Among the containers that answer for a host, the last one that none is better than is the one
/// that the host resolves to, where no id is there twice.
pub proof fn lemma_last_best_answers(
    containers: Seq<ContainerView>,
    r: RouterView,
    host: Seq<char>,
    k: int,
)
    requires
        r.routes == router::routes_of(containers),
        router_laws::distinct_ids(containers),
        0 <= k < containers.len(),
        router_laws::answers_for(containers[k], host),
        forall|i: int|
            0 <= i < containers.len() && router_laws::answers_for(#[trigger] containers[i], host)
                ==> !is_better(containers[i], containers[k]) && (k < i ==> is_better(
                containers[k],
                containers[i],
            )),
    ensures
        r.resolution(host) matches Some(ResultView::Dynamic(c, _)) && c == containers[k],
{
    let v = router_laws::candidates(containers, host);
    router_laws::lemma_candidates(containers, host);
    router_laws::lemma_candidates_members(containers, host);
    let places = lemma_in_order(containers, host);
    assert(router::has_entry(v, containers[k].id));
    let m = choose|m: int| 0 <= m < v.len() && (#[trigger] v[m]).container.id == containers[k].id;
    assert(containers[places[m]] == v[m].container);
    assert(places[m] == k);
    assert forall|i: int| 0 <= i < v.len() implies !is_better(
        (#[trigger] v[i]).container,
        v[m].container,
    ) by {
        assert(containers[places[i]] == v[i].container);
    }
    assert forall|i: int| m < i < v.len() implies is_better(
        v[m].container,
        (#[trigger] v[i]).container,
    ) by {
        assert(containers[places[i]] == v[i].container);
        assert(places[m] < places[i]);
    }
    lemma_last_of_best(v, m);
}

/// Among containers with one id that answer for a host, the first one has the entry there.
pub proof fn lemma_first_of_id(containers: Seq<ContainerView>, host: Seq<char>, i: int)
    requires
        0 <= i < containers.len(),
        router_laws::answers_for(containers[i], host),
        forall|j: int|
            0 <= j < i && (#[trigger] containers[j]).id == containers[i].id
                ==> !router_laws::answers_for(containers[j], host),
    ensures
        exists|k: int|
            0 <= k < router::entries_of(router::routes_of(containers), host).len() && (
            #[trigger] router::entries_of(router::routes_of(containers), host)[k]).container
                == containers[i],
{
    router_laws::lemma_candidates(containers, host);
    let k = lemma_first_candidate(containers, host, i);
    assert(router::entries_of(router::routes_of(containers), host)[k].container == containers[i]);
}

proof fn lemma_first_candidate(containers: Seq<ContainerView>, host: Seq<char>, i: int) -> (k: int)
    requires
        0 <= i < containers.len(),
        router_laws::answers_for(containers[i], host),
        forall|j: int|
            0 <= j < i && (#[trigger] containers[j]).id == containers[i].id
                ==> !router_laws::answers_for(containers[j], host),
    ensures
        0 <= k < router_laws::candidates(containers, host).len(),
        router_laws::candidates(containers, host)[k].container == containers[i],
    decreases containers.len(),
{
    let init = containers.drop_last();
    let before = router_laws::candidates(init, host);
    let after = router_laws::candidates(containers, host);
    if i < init.len() {
        assert(init[i] == containers[i]);
        assert forall|j: int|
            0 <= j < i && (#[trigger] init[j]).id == init[i].id implies !router_laws::answers_for(
            init[j],
            host,
        ) by {
            assert(containers[j].id == containers[i].id);
        }
        let k = lemma_first_candidate(init, host, i);
        assert(after[k] == before[k]);
        k
    } else {
        let c = containers.last();
        router_laws::lemma_candidates_members(init, host);
        router_laws::lemma_candidates_members(containers, host);
        assert(!router::has_entry(before, c.id)) by {
            if router::has_entry(before, c.id) {
                let m = choose|m: int|
                    0 <= m < before.len() && (#[trigger] before[m]).container.id == c.id;
                let x = before[m].container;
                assert(init.contains(x));
                let j = init.index_of(x);
                assert(containers[j].id == containers[i].id);
            }
        }
        assert(router::has_entry(after, containers[i].id));
        let m = choose|m: int|
            0 <= m < after.len() && (#[trigger] after[m]).container.id == containers[i].id;
        if m < before.len() {
            assert(before[m].container.id == c.id);
        }
        m
    }
}

/// No two entries for a host are for one id.
pub proof fn lemma_entries_once(containers: Seq<ContainerView>, host: Seq<char>, k: int, m: int)
    requires
        0 <= k < m < router::entries_of(router::routes_of(containers), host).len(),
    ensures
        router::entries_of(router::routes_of(containers), host)[k].container.id
            != router::entries_of(router::routes_of(containers), host)[m].container.id,
{
    router_laws::lemma_candidates(containers, host);
    lemma_candidates_once(containers, host, k, m);
}

proof fn lemma_candidates_once(containers: Seq<ContainerView>, host: Seq<char>, k: int, m: int)
    requires
        0 <= k < m < router_laws::candidates(containers, host).len(),
    ensures
        router_laws::candidates(containers, host)[k].container.id != router_laws::candidates(
            containers,
            host,
        )[m].container.id,
    decreases containers.len(),
{
    let init = containers.drop_last();
    let before = router_laws::candidates(init, host);
    let after = router_laws::candidates(containers, host);
    if m < before.len() {
        lemma_candidates_once(init, host, k, m);
        assert(after[k] == before[k] && after[m] == before[m]);
    } else {
        assert(after[k] == before[k]);
        assert(before[k].container.id != containers.last().id);
    }
}

/// The entries for a host stand in the order of their containers.
proof fn lemma_in_order(containers: Seq<ContainerView>, host: Seq<char>) -> (places: Seq<int>)
    ensures
        places.len() == router_laws::candidates(containers, host).len(),
        forall|k: int|
            0 <= k < places.len() ==> 0 <= (#[trigger] places[k]) < containers.len()
                && containers[places[k]] == router_laws::candidates(containers, host)[k].container,
        forall|k: int, m: int|
            0 <= k < m < places.len() ==> (#[trigger] places[k]) < (#[trigger] places[m]),
    decreases containers.len(),
{
    if containers.len() == 0 {
        Seq::empty()
    } else {
        let init = containers.drop_last();
        let before = lemma_in_order(init, host);
        let v = router_laws::candidates(init, host);
        let w = router_laws::candidates(containers, host);
        let c = containers.last();
        let places = if w.len() > v.len() {
            before.push(containers.len() - 1)
        } else {
            before
        };
        assert forall|k: int| 0 <= k < places.len() implies 0 <= (#[trigger] places[k])
            < containers.len() && containers[places[k]] == w[k].container by {
            if k < before.len() {
                assert(places[k] == before[k]);
                assert(init[before[k]] == v[k].container);
                assert(w[k] == v[k]);
            }
        }
        places
    }
}

// ---------------------------------------------------------------------------------------------
// Listings
// ---------------------------------------------------------------------------------------------

proof fn lemma_listed_entry(routes: router::Routes, m: int, n: int)
    requires
        0 <= m < routes.len(),
        0 <= n < routes[m].1.len(),
    ensures
        router::listed(routes).contains(routes[m].1[n].container),
    decreases routes.len(),
{
    let init = routes.drop_last();
    let here = routes.last().1.map_values(|e: EntryView| e.container);
    let all = router::listed(routes);
    let c = routes[m].1[n].container;
    if m < init.len() {
        assert(init[m] == routes[m]);
        lemma_listed_entry(init, m, n);
        let q = router::listed(init).index_of(c);
        assert(all[q] == c);
    } else {
        assert(here[n] == c);
        assert(all[router::listed(init).len() + n] == c);
    }
}

proof fn lemma_entry_listed(routes: router::Routes, c: ContainerView) -> (r: (int, int))
    requires
        router::listed(routes).contains(c),
    ensures
        0 <= r.0 < routes.len(),
        0 <= r.1 < routes[r.0].1.len(),
        routes[r.0].1[r.1].container == c,
    decreases routes.len(),
{
    let init = routes.drop_last();
    let here = routes.last().1.map_values(|e: EntryView| e.container);
    let all = router::listed(routes);
    let q = all.index_of(c);
    assert(all == router::listed(init) + here);
    if q < router::listed(init).len() {
        assert(router::listed(init)[q] == c);
        assert(router::listed(init).contains(c));
        let r = lemma_entry_listed(init, c);
        assert(init[r.0] == routes[r.0]);
        r
    } else {
        let n = q - router::listed(init).len();
        assert(here[n] == c);
        (routes.len() - 1, n)
    }
}

/// The table lists exactly the containers that it was made of, where no id is there twice.
proof fn lemma_listed_containers(containers: Seq<ContainerView>, c: ContainerView)
    requires
        router_laws::distinct_ids(containers),
    ensures
        router::listed(router::routes_of(containers)).contains(c) <==> containers.contains(c),
{
    let routes = router::routes_of(containers);
    if router::listed(routes).contains(c) {
        let (m, n) = lemma_entry_listed(routes, c);
        lemma_table_entry(containers, m);
        router_laws::lemma_candidates_members(containers, routes[m].0);
        assert(router_laws::candidates(containers, routes[m].0)[n].container == c);
    }
    if containers.contains(c) {
        let i = containers.index_of(c);
        let host = router::host_of_name(c.name);
        assert(router_laws::answers_for(containers[i], host));
        router_laws::lemma_candidates(containers, host);
        router_laws::lemma_candidates_members(containers, host);
        let v = router_laws::candidates(containers, host);
        assert(router::has_entry(v, containers[i].id));
        let n = choose|n: int| 0 <= n < v.len() && (#[trigger] v[n]).container.id == c.id;
        let k = containers.index_of(v[n].container);
        assert(containers.contains(v[n].container));
        assert(containers[k].id == containers[i].id);
        assert(k == i);
        string_map::lemma_position(routes, host);
        lemma_listed_entry(routes, string_map::position(routes, host), n);
    }
}

proof fn lemma_unique_contains(v: Seq<ContainerView>, c: ContainerView)
    requires
        forall|i: int, j: int|
            0 <= i < v.len() && 0 <= j < v.len() && (#[trigger] v[i]).id == (#[trigger] v[j]).id
                ==> v[i] == v[j],
    ensures
        router::unique(v).contains(c) <==> v.contains(c),
{
    router_laws::lemma_unique(v);
    let u = router::unique(v);
    if u.contains(c) {
        assert(v.contains(u[u.index_of(c)]));
    }
    if v.contains(c) {
        let i = v.index_of(c);
        assert(v[i].id == c.id);
        assert(router::has_id(v, c.id));
        assert(router::has_id(u, c.id));
        let k = choose|k: int| 0 <= k < u.len() && (#[trigger] u[k]).id == c.id;
        assert(v.contains(u[k]));
        let j = v.index_of(u[k]);
        assert(v[j].id == v[i].id);
    }
}

/// Of several containers with one id the first is kept.
pub proof fn lemma_unique_first(v: Seq<ContainerView>, i: int)
    requires
        0 <= i < v.len(),
        forall|j: int| 0 <= j < i ==> (#[trigger] v[j]).id != v[i].id,
    ensures
        router::unique(v).contains(v[i]),
    decreases v.len(),
{
    let init = v.drop_last();
    let before = router::unique(init);
    let after = router::unique(v);
    if i < init.len() {
        assert(init[i] == v[i]);
        assert forall|j: int| 0 <= j < i implies (#[trigger] init[j]).id != init[i].id by {
            assert(v[j].id != v[i].id);
        }
        lemma_unique_first(init, i);
        assert(after[before.index_of(v[i])] == v[i]);
    } else {
        router_laws::lemma_unique(init);
        assert(!router::has_id(init, v[i].id)) by {
            if router::has_id(init, v[i].id) {
                let j = choose|j: int| 0 <= j < init.len() && (#[trigger] init[j]).id == v[i].id;
                assert(v[j].id == v[i].id);
            }
        }
        assert(after[before.len() as int] == v[i]);
    }
}

/// The router lists exactly the containers that it was made of, and the listing of a group has
/// exactly those of that group, where no id is there twice.
pub proof fn lemma_listings(
    containers: Seq<ContainerView>,
    r: RouterView,
    group: Seq<char>,
    c: ContainerView,
)
    requires
        r.routes == router::routes_of(containers),
        router_laws::distinct_ids(containers),
    ensures
        r.containers().contains(c) <==> containers.contains(c),
        r.group(group).contains(c) <==> containers.contains(c) && c.group == Some(group),
{
    let all = router::listed(r.routes);
    let p = router::in_group(group);
    let f = all.filter(p);
    assert forall|i: int, j: int|
        0 <= i < all.len() && 0 <= j < all.len() && (#[trigger] all[i]).id == (
        #[trigger] all[j]).id implies all[i] == all[j] by {
        assert(all.contains(all[i]) && all.contains(all[j]));
        lemma_listed_containers(containers, all[i]);
        lemma_listed_containers(containers, all[j]);
        let (x, y) = (containers.index_of(all[i]), containers.index_of(all[j]));
        assert(containers[x].id == containers[y].id);
        assert(x == y);
    }
    assert forall|i: int, j: int|
        0 <= i < f.len() && 0 <= j < f.len() && (#[trigger] f[i]).id == (
        #[trigger] f[j]).id implies f[i] == f[j] by {
        assert(f.contains(f[i]) && f.contains(f[j]));
        all.lemma_filter_contains_rev(p, f[i]);
        all.lemma_filter_contains_rev(p, f[j]);
        assert(all[all.index_of(f[i])].id == all[all.index_of(f[j])].id);
    }
    lemma_listed_containers(containers, c);
    lemma_unique_contains(all, c);
    lemma_unique_contains(f, c);
    if f.contains(c) {
        all.lemma_filter_contains_rev(p, c);
        all.lemma_filter_pred(p, f.index_of(c));
    }
    if all.contains(c) && c.group == Some(group) {
        all.lemma_filter_contains(p, all.index_of(c));
    }
}

/// The members of a group are among the containers of the router, by id.
pub proof fn lemma_group_listed(r: RouterView, group: Seq<char>, k: int)
    requires
        0 <= k < r.group(group).len(),
    ensures
        router::has_id(r.containers(), r.group(group)[k].id),
{
    let all = router::listed(r.routes);
    let p = router::in_group(group);
    let f = all.filter(p);
    let c = r.group(group)[k];
    router_laws::lemma_unique(f);
    router_laws::lemma_unique(all);
    assert(f.contains(c));
    all.lemma_filter_contains_rev(p, c);
    assert(all[all.index_of(c)].id == c.id);
    assert(router::has_id(all, c.id));
}

// ---------------------------------------------------------------------------------------------
// Clashes with static routes
// ---------------------------------------------------------------------------------------------

/// A clash is told for every host that both a container and a static route answer for by its whole
/// name, and for every wildcard and every host of a container that ends in its suffix; and for
/// nothing else.
pub proof fn lemma_conflicts(r: RouterView, host: Seq<char>, suffix: Seq<char>)
    ensures
        r.conflicts().contains(ConflictView::Exact(host)) <==> (exists|i: int|
            0 <= i < r.statics.exact.len() && (#[trigger] r.statics.exact[i]).0 == host) && exists|
            j: int,
        |
            0 <= j < r.routes.len() && (#[trigger] r.routes[j]).0 == host,
        r.conflicts().contains(ConflictView::Wildcard(suffix, host)) <==> suffix.is_suffix_of(host)
            && (exists|i: int|
            0 <= i < r.statics.wildcard.len() && (#[trigger] r.statics.wildcard[i]).0 == suffix)
            && exists|j: int| 0 <= j < r.routes.len() && (#[trigger] r.routes[j]).0 == host,
{
    let f = |e: (Seq<char>, statics::StaticTargetView)| router::exact_conflict(r.routes, e.0);
    let first = r.statics.exact.filter_map(f);
    let second = router::wildcard_conflicts(r.routes, r.statics.wildcard);
    let (a, b) = (ConflictView::Exact(host), ConflictView::Wildcard(suffix, host));
    sequences::lemma_filter_map_contains(r.statics.exact, f, a);
    sequences::lemma_filter_map_contains(r.statics.exact, f, b);
    lemma_wildcard_conflicts(r.routes, r.statics.wildcard, host, suffix);
    lemma_contains_joined(first, second, a);
    lemma_contains_joined(first, second, b);
    if exists|i: int| 0 <= i < r.statics.exact.len() && (#[trigger] r.statics.exact[i]).0 == host {
        let i = choose|i: int|
            0 <= i < r.statics.exact.len() && (#[trigger] r.statics.exact[i]).0 == host;
        if string_map::has_key(r.routes, host) {
            assert(f(r.statics.exact[i]) == Some(a));
        }
    }
    if first.contains(a) {
        let i = choose|i: int|
            0 <= i < r.statics.exact.len() && f(#[trigger] r.statics.exact[i]) == Some(a);
        assert(r.statics.exact[i].0 == host);
    }
    if first.contains(b) {
        let i = choose|i: int|
            0 <= i < r.statics.exact.len() && f(#[trigger] r.statics.exact[i]) == Some(b);
        assert(false);
    }
}

/// Clashes are told once for each static route, in the order of the routes: those of whole host names
/// first, then those of wildcards, and for each of these in the order of the hosts.
pub proof fn lemma_conflicts_in_order(
    r: RouterView,
    a: Seq<(Seq<char>, statics::StaticTargetView)>,
    b: Seq<(Seq<char>, statics::StaticTargetView)>,
    v: statics::Wildcards,
    w: statics::Wildcards,
    x: router::Routes,
    y: router::Routes,
    e: (Seq<char>, statics::StaticTargetView),
)
    ensures
        ({
            let told = |exact: Seq<(Seq<char>, statics::StaticTargetView)>, wildcard: statics::Wildcards,
                routes: router::Routes| (RouterView {
                routes,
                statics: statics::StaticRoutesView { exact, wildcard },
                ..r
            }).conflicts();
            let none = Seq::<(Seq<char>, statics::StaticTargetView)>::empty();
            &&& told(a, v, x) == told(a, none, x) + told(none, v, x)
            &&& told(a + b, none, x) == told(a, none, x) + told(b, none, x)
            &&& told(none, v + w, x) == told(none, v, x) + told(none, w, x)
            &&& told(none, seq![e], x + y) == told(none, seq![e], x) + told(none, seq![e], y)
            &&& told(seq![e], none, x).len() <= 1
        }),
{
    let none = Seq::<(Seq<char>, statics::StaticTargetView)>::empty();
    let f = |z: (Seq<char>, statics::StaticTargetView)| router::exact_conflict(x, z.0);
    let g = |z: (Seq<char>, Seq<EntryView>)| router::wildcard_conflict(e.0, z.0);
    sequences::lemma_filter_map_joined(a, b, f);
    sequences::lemma_filter_map_joined(x, y, g);
    Seq::lemma_filter_map_singleton(e, f);
    lemma_wildcards_joined(x, v, w);
    lemma_one_wildcard(x, e);
    lemma_one_wildcard(y, e);
    lemma_one_wildcard(x + y, e);
    reveal(Seq::filter_map);
    let h = |z: (Seq<char>, statics::StaticTargetView)| router::exact_conflict(x + y, z.0);
    let k = |z: (Seq<char>, statics::StaticTargetView)| router::exact_conflict(y, z.0);
    let nothing = Seq::<ConflictView>::empty();
    assert(none.filter_map(f) =~= nothing);
    assert(none.filter_map(h) =~= nothing);
    assert(none.filter_map(k) =~= nothing);
    assert(router::wildcard_conflicts(x, none) =~= nothing);
    assert(a.filter_map(f) + router::wildcard_conflicts(x, v) =~= (a.filter_map(f) + nothing) + (
    nothing + router::wildcard_conflicts(x, v)));
    assert((a + b).filter_map(f) + nothing =~= (a.filter_map(f) + nothing) + (b.filter_map(f)
        + nothing));
    assert(nothing + router::wildcard_conflicts(x, v + w) =~= (nothing + router::wildcard_conflicts(
        x,
        v,
    )) + (nothing + router::wildcard_conflicts(x, w)));
    assert(nothing + router::covered(x + y, e.0) =~= (nothing + router::covered(x, e.0)) + (nothing
        + router::covered(y, e.0)));
    assert(seq![e].filter_map(f) + nothing =~= seq![e].filter_map(f));
}

proof fn lemma_wildcards_joined(
    routes: router::Routes,
    v: statics::Wildcards,
    w: statics::Wildcards,
)
    ensures
        router::wildcard_conflicts(routes, v + w) == router::wildcard_conflicts(routes, v)
            + router::wildcard_conflicts(routes, w),
    decreases w.len(),
{
    if w.len() == 0 {
        assert(v + w =~= v);
        assert(router::wildcard_conflicts(routes, v) + router::wildcard_conflicts(routes, w)
            =~= router::wildcard_conflicts(routes, v));
    } else {
        lemma_wildcards_joined(routes, v, w.drop_last());
        assert((v + w).drop_last() =~= v + w.drop_last());
        assert((v + w).last() == w.last());
        assert(router::wildcard_conflicts(routes, v + w) =~= router::wildcard_conflicts(routes, v)
            + router::wildcard_conflicts(routes, w));
    }
}

proof fn lemma_one_wildcard(routes: router::Routes, e: (Seq<char>, statics::StaticTargetView))
    ensures
        router::wildcard_conflicts(routes, seq![e]) == router::covered(routes, e.0),
{
    assert(seq![e].drop_last() =~= Seq::<(Seq<char>, statics::StaticTargetView)>::empty());
    assert(seq![e].last() == e);
    assert(router::wildcard_conflicts(routes, seq![e].drop_last()) =~= Seq::<
        ConflictView,
    >::empty());
    assert(router::wildcard_conflicts(routes, seq![e]) =~= router::covered(routes, e.0));
}

proof fn lemma_contains_joined<A>(a: Seq<A>, b: Seq<A>, x: A)
    ensures
        (a + b).contains(x) <==> a.contains(x) || b.contains(x),
{
    if a.contains(x) {
        assert((a + b)[a.index_of(x)] == x);
    }
    if b.contains(x) {
        assert((a + b)[a.len() + b.index_of(x)] == x);
    }
    if (a + b).contains(x) {
        let k = (a + b).index_of(x);
        if k < a.len() {
            assert(a[k] == x);
        } else {
            assert(b[k - a.len()] == x);
        }
    }
}

proof fn lemma_wildcard_conflicts(
    routes: router::Routes,
    wildcards: statics::Wildcards,
    host: Seq<char>,
    suffix: Seq<char>,
)
    ensures
        !router::wildcard_conflicts(routes, wildcards).contains(ConflictView::Exact(host)),
        router::wildcard_conflicts(routes, wildcards).contains(
            ConflictView::Wildcard(suffix, host),
        ) <==> suffix.is_suffix_of(host) && (exists|i: int|
            0 <= i < wildcards.len() && (#[trigger] wildcards[i]).0 == suffix) && exists|j: int|
            0 <= j < routes.len() && (#[trigger] routes[j]).0 == host,
    decreases wildcards.len(),
{
    if wildcards.len() > 0 {
        let init = wildcards.drop_last();
        let s = wildcards.last().0;
        lemma_wildcard_conflicts(routes, init, host, suffix);
        let (a, b) = (ConflictView::Exact(host), ConflictView::Wildcard(suffix, host));
        let f = |r: (Seq<char>, Seq<EntryView>)| router::wildcard_conflict(s, r.0);
        let before = router::wildcard_conflicts(routes, init);
        let here = router::covered(routes, s);
        sequences::lemma_filter_map_contains(routes, f, a);
        sequences::lemma_filter_map_contains(routes, f, b);
        lemma_contains_joined(before, here, a);
        lemma_contains_joined(before, here, b);
        assert(wildcards[wildcards.len() - 1].0 == s);
        if here.contains(b) {
            let j = choose|j: int| 0 <= j < routes.len() && f(#[trigger] routes[j]) == Some(b);
            assert(routes[j].0 == host);
        }
        if suffix == s && suffix.is_suffix_of(host) && exists|j: int|
            0 <= j < routes.len() && (#[trigger] routes[j]).0 == host {
            let j = choose|j: int| 0 <= j < routes.len() && (#[trigger] routes[j]).0 == host;
            assert(f(routes[j]) == Some(b));
        }
        if exists|i: int| 0 <= i < init.len() && (#[trigger] init[i]).0 == suffix {
            let i = choose|i: int| 0 <= i < init.len() && (#[trigger] init[i]).0 == suffix;
            assert(wildcards[i].0 == suffix);
        }
        if exists|i: int| 0 <= i < wildcards.len() && (#[trigger] wildcards[i]).0 == suffix {
            let i = choose|i: int| 0 <= i < wildcards.len() && (#[trigger] wildcards[i]).0 == suffix;
            if i < init.len() {
                assert(init[i].0 == suffix);
            }
        }
    }
}

} // verus!
