//! What holds of the routing tables.

use crate::container;
use crate::container::ContainerView;
use crate::router;
use crate::router::{EntryView, ResultView, RouterView};
use crate::string_map;
use vstd::prelude::*;

verus! {

// ---------------------------------------------------------------------------------------------
// Which containers answer for a host
// ---------------------------------------------------------------------------------------------

/// `c` answers for `host`: by its name or by one of its routes. Nothing else of a container plays
/// a part: neither its aliases nor its group.
pub open spec fn answers_for(c: ContainerView, host: Seq<char>) -> bool {
    host == router::host_of_name(c.name) || exists|i: int|
        0 <= i < c.routes.len() && (#[trigger] c.routes[i]).host == host
}

/// The port that `hosts` gives for `host` where it first names it.
pub open spec fn first_port(
    hosts: Seq<(Seq<char>, Option<u16>)>,
    host: Seq<char>,
) -> Option<Option<u16>>
    decreases hosts.len(),
{
    if hosts.len() == 0 {
        None
    } else {
        match first_port(hosts.drop_last(), host) {
            Some(port) => Some(port),
            None => if hosts.last().0 == host {
                Some(hosts.last().1)
            } else {
                None
            },
        }
    }
}

/// The entries for `host`: the containers that answer for it, in order, the first of each id, each
/// with the port that its routes name for the host.
pub open spec fn candidates(containers: Seq<ContainerView>, host: Seq<char>) -> Seq<EntryView>
    decreases containers.len(),
{
    if containers.len() == 0 {
        Seq::empty()
    } else {
        let before = candidates(containers.drop_last(), host);
        let c = containers.last();
        match first_port(router::hosts_of(c), host) {
            Some(port) => router::with_entry(before, c, port),
            None => before,
        }
    }
}

/// A host is named by a container where the container answers for it.
proof fn lemma_first_port(hosts: Seq<(Seq<char>, Option<u16>)>, host: Seq<char>)
    ensures
        first_port(hosts, host) is Some <==> exists|i: int|
            0 <= i < hosts.len() && (#[trigger] hosts[i]).0 == host,
    decreases hosts.len(),
{
    if hosts.len() > 0 {
        let init = hosts.drop_last();
        lemma_first_port(init, host);
        if first_port(init, host) is Some {
            let i = choose|i: int| 0 <= i < init.len() && (#[trigger] init[i]).0 == host;
            assert(hosts[i].0 == host);
        } else if exists|i: int| 0 <= i < hosts.len() && (#[trigger] hosts[i]).0 == host {
            let i = choose|i: int| 0 <= i < hosts.len() && (#[trigger] hosts[i]).0 == host;
            if i < init.len() {
                assert(init[i].0 == host);
            }
        }
    }
}

proof fn lemma_answers_for(c: ContainerView, host: Seq<char>)
    ensures
        first_port(router::hosts_of(c), host) is Some <==> answers_for(c, host),
{
    let hosts = router::hosts_of(c);
    lemma_first_port(hosts, host);
    if answers_for(c, host) {
        if host == router::host_of_name(c.name) {
            assert(hosts[0].0 == host);
        } else {
            let i = choose|i: int| 0 <= i < c.routes.len() && (#[trigger] c.routes[i]).host == host;
            assert(hosts[i + 1].0 == host);
        }
    }
    if first_port(hosts, host) is Some {
        let i = choose|i: int| 0 <= i < hosts.len() && (#[trigger] hosts[i]).0 == host;
        if i > 0 {
            assert(c.routes[i - 1].host == host);
        }
    }
}

/// Entering a container for a list of hosts adds one entry under each, with its first port.
proof fn lemma_with_hosts(
    routes: router::Routes,
    hosts: Seq<(Seq<char>, Option<u16>)>,
    c: ContainerView,
    host: Seq<char>,
)
    ensures
        router::entries_of(router::with_hosts(routes, hosts, c), host) == (match first_port(
            hosts,
            host,
        ) {
            Some(port) => router::with_entry(router::entries_of(routes, host), c, port),
            None => router::entries_of(routes, host),
        }),
        string_map::has_key(router::with_hosts(routes, hosts, c), host) <==> (string_map::has_key(
            routes,
            host,
        ) || first_port(hosts, host) is Some),
    decreases hosts.len(),
{
    if hosts.len() > 0 {
        let init = hosts.drop_last();
        lemma_with_hosts(routes, init, c, host);
        let t = router::with_hosts(routes, init, c);
        let (h, port) = hosts.last();
        let v = router::with_entry(router::entries_of(t, h), c, port);
        string_map::lemma_inserted(t, h, v, host);
        let after = string_map::inserted(t, h, v);
        string_map::lemma_position(t, host);
        string_map::lemma_position(after, host);
        string_map::lemma_position(t, h);
        if h == host {
            match first_port(init, host) {
                Some(p) => {
                    let e = router::entries_of(routes, host);
                    let w = router::with_entry(e, c, p);
                    if !router::has_entry(e, c.id) {
                        assert(w[e.len() as int].container.id == c.id);
                    }
                    assert(router::has_entry(w, c.id));
                },
                None => {},
            }
        }
    }
}

/// The table lists for every host exactly the containers that answer for it, the first of each id;
/// and it has exactly the hosts that some container answers for.
pub proof fn lemma_candidates(containers: Seq<ContainerView>, host: Seq<char>)
    ensures
        router::entries_of(router::routes_of(containers), host) == candidates(containers, host),
        string_map::has_key(router::routes_of(containers), host) <==> exists|i: int|
            0 <= i < containers.len() && answers_for(#[trigger] containers[i], host),
    decreases containers.len(),
{
    if containers.len() == 0 {
    } else {
        let init = containers.drop_last();
        let c = containers.last();
        lemma_candidates(init, host);
        lemma_with_hosts(router::routes_of(init), router::hosts_of(c), c, host);
        lemma_answers_for(c, host);
        if exists|i: int| 0 <= i < init.len() && answers_for(#[trigger] init[i], host) {
            let i = choose|i: int| 0 <= i < init.len() && answers_for(#[trigger] init[i], host);
            assert(answers_for(containers[i], host));
        }
        if answers_for(c, host) {
            assert(answers_for(containers[containers.len() - 1], host));
        }
        if exists|i: int| 0 <= i < containers.len() && answers_for(#[trigger] containers[i], host) {
            let i = choose|i: int|
                0 <= i < containers.len() && answers_for(#[trigger] containers[i], host);
            if i < init.len() {
                assert(answers_for(init[i], host));
            }
        }
    }
}

/// Where a host is named with a port, that is the one that belongs to it.
proof fn lemma_port_of_host(c: ContainerView, hosts: Seq<(Seq<char>, Option<u16>)>, host: Seq<char>)
    requires
        forall|i: int|
            0 <= i < hosts.len() ==> (#[trigger] hosts[i]).1 == router::named_port(
                c.routes,
                hosts[i].0,
            ),
    ensures
        first_port(hosts, host) matches Some(port) ==> port == router::named_port(c.routes, host),
    decreases hosts.len(),
{
    if hosts.len() > 0 {
        let init = hosts.drop_last();
        assert forall|i: int| 0 <= i < init.len() implies (#[trigger] init[i]).1
            == router::named_port(c.routes, init[i].0) by {
            assert(hosts[i].1 == router::named_port(c.routes, hosts[i].0));
        }
        lemma_port_of_host(c, init, host);
        assert(hosts[hosts.len() - 1] == hosts.last());
    }
}

/// Every entry for a host has the port that the routes of its container name for the host, also
/// where the host is that of the container's name.
pub proof fn lemma_route_port(containers: Seq<ContainerView>, host: Seq<char>, k: int)
    requires
        0 <= k < candidates(containers, host).len(),
    ensures
        candidates(containers, host)[k].port == router::named_port(
            candidates(containers, host)[k].container.routes,
            host,
        ),
    decreases containers.len(),
{
    if containers.len() > 0 {
        let init = containers.drop_last();
        let c = containers.last();
        let before = candidates(init, host);
        if k < before.len() {
            lemma_route_port(init, host, k);
            assert(candidates(containers, host)[k] == before[k]);
        } else {
            let hosts = router::hosts_of(c);
            assert forall|i: int| 0 <= i < hosts.len() implies (#[trigger] hosts[i]).1
                == router::named_port(c.routes, hosts[i].0) by {
                if i > 0 {
                    assert(hosts[i].0 == c.routes[i - 1].host);
                }
            }
            lemma_port_of_host(c, hosts, host);
        }
    }
}

/// The first route for a host tells the port for it: the one that it names, or the container's own
/// where it names none. Later routes for the host do not count.
pub proof fn lemma_named_port(routes: Seq<container::RouteView>, i: int)
    requires
        0 <= i < routes.len(),
        forall|j: int| 0 <= j < i ==> (#[trigger] routes[j]).host != routes[i].host,
    ensures
        router::named_port(routes, routes[i].host) == routes[i].port,
    decreases i,
{
    if i > 0 {
        let rest = routes.skip(1);
        assert forall|j: int| 0 <= j < i - 1 implies (#[trigger] rest[j]).host != rest[i - 1].host by {
            assert(rest[j] == routes[j + 1]);
        }
        assert(rest[i - 1] == routes[i]);
        assert(routes[0].host != routes[i].host);
        lemma_named_port(rest, i - 1);
    }
}

/// An entry is there for each container that answers for the host, by id; and each entry is for a
/// container of the list that answers for the host.
pub proof fn lemma_candidates_members(containers: Seq<ContainerView>, host: Seq<char>)
    ensures
        forall|i: int|
            0 <= i < containers.len() && answers_for(#[trigger] containers[i], host)
                ==> router::has_entry(candidates(containers, host), containers[i].id),
        forall|k: int|
            0 <= k < candidates(containers, host).len() ==> containers.contains(
                (#[trigger] candidates(containers, host)[k]).container,
            ) && answers_for(candidates(containers, host)[k].container, host),
    decreases containers.len(),
{
    if containers.len() > 0 {
        let init = containers.drop_last();
        let c = containers.last();
        lemma_candidates_members(init, host);
        lemma_answers_for(c, host);
        let before = candidates(init, host);
        let after = candidates(containers, host);
        assert forall|i: int|
            0 <= i < containers.len() && answers_for(
                #[trigger] containers[i],
                host,
            ) implies router::has_entry(after, containers[i].id) by {
            if i < init.len() {
                assert(answers_for(init[i], host));
                let k = choose|k: int|
                    0 <= k < before.len() && (#[trigger] before[k]).container.id == init[i].id;
                assert(after[k].container.id == containers[i].id);
            } else if !router::has_entry(before, c.id) {
                assert(after[before.len() as int].container.id == c.id);
            }
        }
        assert forall|k: int| 0 <= k < after.len() implies containers.contains(
            (#[trigger] after[k]).container,
        ) && answers_for(after[k].container, host) by {
            if k < before.len() {
                assert(after[k] == before[k]);
                let j = init.index_of(before[k].container);
                assert(init.contains(before[k].container));
                assert(containers[j] == before[k].container);
            } else {
                assert(containers[containers.len() - 1] == c);
            }
        }
    }
}

// ---------------------------------------------------------------------------------------------
// Which of them is chosen
// ---------------------------------------------------------------------------------------------

/// Among the entries of a host one is chosen wherever there is one, and no other is better: a
/// running container wins over a stopped one, and among equals the newest wins.
pub proof fn lemma_chosen(v: Seq<EntryView>)
    ensures
        router::chosen(v) is Some <==> v.len() > 0,
        router::chosen(v) matches Some(best) ==> v.contains(best) && forall|i: int|
            0 <= i < v.len() ==> router::not_better((#[trigger] v[i]).container, best.container),
    decreases v.len(),
{
    if v.len() > 0 {
        let init = v.drop_last();
        lemma_chosen(init);
        let best = router::chosen(v)->0;
        match router::chosen(init) {
            Some(b) => {
                let k = init.index_of(b);
                assert(v[k] == b);
                assert(v[v.len() - 1] == v.last());
                assert forall|i: int| 0 <= i < v.len() implies router::not_better(
                    (#[trigger] v[i]).container,
                    best.container,
                ) by {
                    if i < init.len() {
                        assert(router::not_better(init[i].container, b.container));
                    }
                }
            },
            None => {
                assert(v[0] == v.last());
            },
        }
    }
}

/// A host with an entry for a running container goes to a running container.
pub proof fn lemma_running_wins(v: Seq<EntryView>, i: int)
    requires
        0 <= i < v.len(),
        v[i].container.running,
    ensures
        router::chosen(v) matches Some(best) && best.container.running,
{
    lemma_chosen(v);
    assert(router::not_better(v[i].container, router::chosen(v)->0.container));
}

/// The same choice is made for a listening port: one is chosen wherever there is one, and no other
/// is better.
pub proof fn lemma_chosen_container(v: Seq<ContainerView>)
    ensures
        router::chosen_container(v) is Some <==> v.len() > 0,
        router::chosen_container(v) matches Some(best) ==> v.contains(best) && forall|i: int|
            0 <= i < v.len() ==> router::not_better(#[trigger] v[i], best),
    decreases v.len(),
{
    if v.len() > 0 {
        let init = v.drop_last();
        lemma_chosen_container(init);
        let best = router::chosen_container(v)->0;
        match router::chosen_container(init) {
            Some(b) => {
                let k = init.index_of(b);
                assert(v[k] == b);
                assert(v[v.len() - 1] == v.last());
                assert forall|i: int| 0 <= i < v.len() implies router::not_better(
                    #[trigger] v[i],
                    best,
                ) by {
                    if i < init.len() {
                        assert(router::not_better(init[i], b));
                    }
                }
            },
            None => {
                assert(v[0] == v.last());
            },
        }
    }
}

// ---------------------------------------------------------------------------------------------
// What a host resolves to
// ---------------------------------------------------------------------------------------------

/// No two containers have the same id.
pub open spec fn distinct_ids(v: Seq<ContainerView>) -> bool {
    forall|i: int, j: int|
        0 <= i < j < v.len() ==> (#[trigger] v[i]).id != (#[trigger] v[j]).id
}

/// A host that some container answers for resolves to such a container, whatever static routes
/// there are; and where ids are distinct, no container that answers for it is better.
pub proof fn lemma_answered_host_resolves(
    containers: Seq<ContainerView>,
    r: RouterView,
    host: Seq<char>,
    i: int,
)
    requires
        r.routes == router::routes_of(containers),
        0 <= i < containers.len(),
        answers_for(containers[i], host),
    ensures
        r.resolution(host) matches Some(ResultView::Dynamic(c, _)) && containers.contains(c)
            && answers_for(c, host) && (distinct_ids(containers) ==> router::not_better(
            containers[i],
            c,
        )),
{
    lemma_candidates(containers, host);
    lemma_candidates_members(containers, host);
    let v = candidates(containers, host);
    lemma_chosen(v);
    assert(router::has_entry(v, containers[i].id));
    let e = router::chosen(v)->0;
    assert(v.contains(e));
    let k = v.index_of(e);
    assert(v[k] == e);
    if distinct_ids(containers) {
        let m = choose|m: int| 0 <= m < v.len() && (#[trigger] v[m]).container.id == containers[i].id;
        let d = v[m].container;
        assert(containers.contains(d));
        let n = containers.index_of(d);
        assert(containers[n].id == containers[i].id);
        assert(n == i);
        assert(router::not_better(v[m].container, e.container));
    }
}

/// Containers come before static routes: where a container answers, by the whole host name or from
/// above, the static routes have no say.
pub proof fn lemma_dynamic_wins(r: RouterView, host: Seq<char>)
    requires
        r.dynamic(host) is Some,
    ensures
        r.dynamic(host) matches Some((c, port)) && r.resolution(host) == Some(
            ResultView::Dynamic(c, port),
        ),
{
}

/// A host that no container answers for, itself or from above, goes where the static routes say.
pub proof fn lemma_static_last(r: RouterView, host: Seq<char>)
    requires
        r.dynamic(host) is None,
    ensures
        r.resolution(host) == (match r.statics.target(host) {
            Some(t) => Some(ResultView::Static(t)),
            None => None,
        }),
{
}

// ---------------------------------------------------------------------------------------------
// Listing the containers
// ---------------------------------------------------------------------------------------------

/// Dropping repeated ids leaves every id once, and only containers that were there.
pub proof fn lemma_unique(v: Seq<ContainerView>)
    ensures
        distinct_ids(router::unique(v)),
        forall|id: Seq<char>| router::has_id(router::unique(v), id) <==> router::has_id(v, id),
        forall|k: int|
            0 <= k < router::unique(v).len() ==> v.contains(#[trigger] router::unique(v)[k]),
    decreases v.len(),
{
    if v.len() > 0 {
        let init = v.drop_last();
        let c = v.last();
        lemma_unique(init);
        let before = router::unique(init);
        let after = router::unique(v);
        assert forall|i: int, j: int| 0 <= i < j < after.len() implies (#[trigger] after[i]).id != (
        #[trigger] after[j]).id by {
            if j < before.len() {
                assert(before[i].id != before[j].id);
            } else {
                assert(before[i].id != c.id);
            }
        }
        assert forall|id: Seq<char>| router::has_id(after, id) <==> router::has_id(v, id) by {
            assert(router::has_id(before, id) <==> router::has_id(init, id));
            if router::has_id(after, id) {
                let k = choose|k: int| 0 <= k < after.len() && (#[trigger] after[k]).id == id;
                if k < before.len() {
                    assert(before[k].id == id);
                    let m = choose|m: int| 0 <= m < init.len() && (#[trigger] init[m]).id == id;
                    assert(v[m].id == id);
                } else {
                    assert(v[v.len() - 1].id == id);
                }
            }
            if router::has_id(v, id) {
                let m = choose|m: int| 0 <= m < v.len() && (#[trigger] v[m]).id == id;
                if m < init.len() {
                    assert(init[m].id == id);
                    let k = choose|k: int| 0 <= k < before.len() && (#[trigger] before[k]).id == id;
                    assert(after[k].id == id);
                } else if router::has_id(before, c.id) {
                    let k = choose|k: int|
                        0 <= k < before.len() && (#[trigger] before[k]).id == c.id;
                    assert(after[k].id == id);
                } else {
                    assert(after[before.len() as int].id == id);
                }
            }
        }
        assert forall|k: int| 0 <= k < after.len() implies v.contains(#[trigger] after[k]) by {
            if k < before.len() {
                assert(after[k] == before[k]);
                assert(init.contains(before[k]));
                assert(v[init.index_of(before[k])] == before[k]);
            } else {
                assert(v[v.len() - 1] == c);
            }
        }
    }
}

/// What the table lists: the containers of the entries of each host.
proof fn lemma_listed(routes: router::Routes, host: Seq<char>)
    ensures
        forall|k: int|
            0 <= k < router::entries_of(routes, host).len() ==> router::listed(routes).contains(
                (#[trigger] router::entries_of(routes, host)[k]).container,
            ),
        forall|c: ContainerView| #[trigger]
            router::listed(routes).contains(c) ==> exists|m: int, n: int|
                0 <= m < routes.len() && 0 <= n < routes[m].1.len() && (
                #[trigger] routes[m].1[n]).container == c,
    decreases routes.len(),
{
    if routes.len() > 0 {
        let init = routes.drop_last();
        let (h, v) = routes.last();
        lemma_listed(init, host);
        let here = v.map_values(|e: EntryView| e.container);
        let all = router::listed(routes);
        assert(all == router::listed(init) + here);
        string_map::lemma_position(init, host);
        string_map::lemma_position(routes, host);
        let entries = router::entries_of(routes, host);
        assert forall|k: int| 0 <= k < entries.len() implies all.contains(
            (#[trigger] entries[k]).container,
        ) by {
            if string_map::has_key(init, host) {
                let p = string_map::position(init, host);
                assert forall|j: int| 0 <= j < p implies (#[trigger] routes[j]).0 != host by {
                    assert(init[j].0 != host);
                }
                assert(routes[p] == init[p]);
                string_map::lemma_position_is(routes, host, p);
                assert(entries == router::entries_of(init, host));
                let c = entries[k].container;
                assert(router::listed(init).contains(c));
                assert(all[router::listed(init).index_of(c)] == c);
            } else {
                assert(routes[string_map::position(routes, host)].0 == host);
                if string_map::position(routes, host) < init.len() {
                    assert(init[string_map::position(routes, host)].0 == host);
                }
                assert(entries == v);
                assert(all[router::listed(init).len() + k] == here[k]);
            }
        }
        assert forall|c: ContainerView| #[trigger] all.contains(c) implies exists|m: int, n: int|
            0 <= m < routes.len() && 0 <= n < routes[m].1.len() && (
            #[trigger] routes[m].1[n]).container == c by {
            let q = all.index_of(c);
            if q < router::listed(init).len() {
                assert(router::listed(init)[q] == c);
                assert(router::listed(init).contains(c));
                let (m, n) = choose|m: int, n: int|
                    0 <= m < init.len() && 0 <= n < init[m].1.len() && (
                    #[trigger] init[m].1[n]).container == c;
                assert(routes[m].1[n].container == c);
            } else {
                let n = q - router::listed(init).len();
                assert(routes[routes.len() - 1].1[n].container == c);
            }
        }
    } else {
        assert(router::entries_of(routes, host).len() == 0);
    }
}

/// The router lists every id that it was given, each once.
pub proof fn lemma_all_listed(containers: Seq<ContainerView>, r: RouterView, i: int)
    requires
        r.routes == router::routes_of(containers),
        0 <= i < containers.len(),
    ensures
        distinct_ids(r.containers()),
        router::has_id(r.containers(), containers[i].id),
{
    let c = containers[i];
    let host = router::host_of_name(c.name);
    lemma_unique(router::listed(r.routes));
    lemma_candidates(containers, host);
    lemma_candidates_members(containers, host);
    lemma_listed(r.routes, host);
    let v = candidates(containers, host);
    assert(answers_for(c, host));
    let k = choose|k: int| 0 <= k < v.len() && (#[trigger] v[k]).container.id == c.id;
    let d = v[k].container;
    assert(router::listed(r.routes).contains(router::entries_of(r.routes, host)[k].container));
    let q = router::listed(r.routes).index_of(d);
    assert(router::listed(r.routes)[q].id == c.id);
    assert(router::has_id(router::listed(r.routes), c.id));
}

/// Every container in a group listing is of that group, and each id stands there once.
pub proof fn lemma_group(r: RouterView, group: Seq<char>)
    ensures
        distinct_ids(r.group(group)),
        forall|k: int| 0 <= k < r.group(group).len() ==> (#[trigger] r.group(group)[k]).group
            == Some(group),
{
    let all = router::listed(r.routes);
    let f = all.filter(router::in_group(group));
    lemma_unique(f);
    assert forall|k: int| 0 <= k < r.group(group).len() implies (
    #[trigger] r.group(group)[k]).group == Some(group) by {
        let c = r.group(group)[k];
        assert(f.contains(c));
        all.lemma_filter_contains_rev(router::in_group(group), c);
    }
}

// ---------------------------------------------------------------------------------------------
// Listening ports
// ---------------------------------------------------------------------------------------------

/// `c` is forwarded to from `port`.
pub open spec fn exposes(c: ContainerView, port: u16) -> bool {
    exists|i: int|
        0 <= i < c.tcp_expose.len() && (#[trigger] c.tcp_expose[i]).listen_port == port
}

/// The containers that a port is forwarded to, in order, the first of each id.
pub open spec fn forwarded(containers: Seq<ContainerView>, port: u16) -> Seq<ContainerView>
    decreases containers.len(),
{
    if containers.len() == 0 {
        Seq::empty()
    } else {
        let before = forwarded(containers.drop_last(), port);
        if exposes(containers.last(), port) {
            router::with_container(before, containers.last())
        } else {
            before
        }
    }
}

proof fn lemma_with_ports(
    tcp: router::TcpRoutes,
    list: Seq<container::TcpExpose>,
    c: ContainerView,
    port: u16,
)
    ensures
        router::behind(router::with_ports(tcp, list, c), port) == (if exists|i: int|
            0 <= i < list.len() && (#[trigger] list[i]).listen_port == port {
            router::with_container(router::behind(tcp, port), c)
        } else {
            router::behind(tcp, port)
        }),
        router::with_ports(tcp, list, c).contains_key(port) <==> (tcp.contains_key(port)
            || exists|i: int| 0 <= i < list.len() && (#[trigger] list[i]).listen_port == port),
    decreases list.len(),
{
    if list.len() > 0 {
        let init = list.drop_last();
        lemma_with_ports(tcp, init, c, port);
        let t = router::with_ports(tcp, init, c);
        let p = list.last().listen_port;
        let was = exists|i: int| 0 <= i < init.len() && (#[trigger] init[i]).listen_port == port;
        let is = exists|i: int| 0 <= i < list.len() && (#[trigger] list[i]).listen_port == port;
        if was {
            let i = choose|i: int| 0 <= i < init.len() && (#[trigger] init[i]).listen_port == port;
            assert(list[i].listen_port == port);
        }
        if p == port {
            assert(list[list.len() - 1].listen_port == port);
        }
        if is && p != port {
            let i = choose|i: int| 0 <= i < list.len() && (#[trigger] list[i]).listen_port == port;
            assert(init[i].listen_port == port);
        }
        if p == port && was {
            let e = router::behind(tcp, port);
            let w = router::with_container(e, c);
            if !router::has_id(e, c.id) {
                assert(w[e.len() as int].id == c.id);
            }
            assert(router::has_id(w, c.id));
        }
    }
}

/// Behind every port stand exactly the containers that it is forwarded to, and the ports that are
/// listened on are exactly those that some container is forwarded to from.
pub proof fn lemma_tcp_routes(containers: Seq<ContainerView>, port: u16)
    ensures
        router::behind(router::tcp_routes_of(containers), port) == forwarded(containers, port),
        router::tcp_routes_of(containers).contains_key(port) <==> exists|i: int|
            0 <= i < containers.len() && exposes(#[trigger] containers[i], port),
    decreases containers.len(),
{
    if containers.len() > 0 {
        let init = containers.drop_last();
        let c = containers.last();
        lemma_tcp_routes(init, port);
        lemma_with_ports(router::tcp_routes_of(init), c.tcp_expose, c, port);
        if exists|i: int| 0 <= i < init.len() && exposes(#[trigger] init[i], port) {
            let i = choose|i: int| 0 <= i < init.len() && exposes(#[trigger] init[i], port);
            assert(exposes(containers[i], port));
        }
        if exposes(c, port) {
            assert(exposes(containers[containers.len() - 1], port));
        }
        if exists|i: int| 0 <= i < containers.len() && exposes(#[trigger] containers[i], port) {
            let i = choose|i: int| 0 <= i < containers.len() && exposes(#[trigger] containers[i], port);
            if i < init.len() {
                assert(exposes(init[i], port));
            }
        }
    }
}

} // verus!
