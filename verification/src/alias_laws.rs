//! What holds of the proxy's own names on a network, and of what is made of the answers of the Docker
//! API.

use crate::aliases;
use crate::aliases::{AliasActionView, AliasEventView, AliasStateView, PlanView};
use crate::container::{ContainerView, RouteView};
use crate::docker;
use crate::docker::{HealthStatus, Inspection, NetworkView, WatchAction, WatchEvent};
use crate::labels;
use crate::labels::{ContainerState, ContainerSummary};
use crate::order;
use crate::text;
use crate::text_laws;
use crate::time::Duration;
use vstd::prelude::*;
use vstd::relations::*;

verus! {

// ---------------------------------------------------------------------------------------------
// Names
// ---------------------------------------------------------------------------------------------

/// Two texts are in order where the first begins the second, and otherwise as the characters are at
/// the first place where they differ.
pub proof fn lemma_first_difference(a: Seq<char>, b: Seq<char>, i: int)
    ensures
        0 <= i < a.len() && i < b.len() && a.take(i) == b.take(i) && a[i] != b[i] ==> (
        order::lex_le(a, b) <==> (a[i] as int) < (b[i] as int)),
        0 <= i <= a.len() && b == a.take(i) && i < a.len() ==> !order::lex_le(a, b),
        0 <= i <= b.len() && a == b.take(i) ==> order::lex_le(a, b),
    decreases a.len(),
{
    if a.len() > 0 && b.len() > 0 && i > 0 {
        let (x, y) = (a.skip(1), b.skip(1));
        lemma_first_difference(x, y, i - 1);
        if i <= a.len() && i <= b.len() && a.take(i) == b.take(i) {
            assert(a.take(i)[0] == b.take(i)[0]);
            assert(x.take(i - 1) =~= a.take(i).skip(1));
            assert(y.take(i - 1) =~= b.take(i).skip(1));
        }
        if i <= a.len() && b == a.take(i) {
            assert(b[0] == a.take(i)[0]);
            assert(y =~= x.take(i - 1));
        }
        if i <= b.len() && a == b.take(i) {
            assert(a[0] == b.take(i)[0]);
            assert(x =~= y.take(i - 1));
        }
    }
}

/// A container has this host name: as the host of one of its routes, or as one of its aliases.
pub open spec fn has_name(c: ContainerView, x: Seq<char>) -> bool {
    (exists|i: int| 0 <= i < c.routes.len() && (#[trigger] c.routes[i]).host == x) || exists|j: int|
        0 <= j < c.aliases.len() && #[trigger] c.aliases[j] == x
}

/// The names that the proxy should have are exactly the host names of the containers that are not
/// empty, each once and in order.
pub proof fn lemma_hosts(containers: Seq<ContainerView>, x: Seq<char>)
    ensures
        ({
            let hosts = order::sorted(aliases::names_of_all(containers));
            &&& hosts.contains(x) <==> x.len() > 0 && exists|i: int|
                0 <= i < containers.len() && has_name(#[trigger] containers[i], x)
            &&& hosts.no_duplicates()
            &&& forall|i: int, j: int|
                0 <= i < j < hosts.len() ==> order::lex_le(#[trigger] hosts[i], #[trigger] hosts[j])
        }),
{
    aliases::lemma_route_hosts(containers);
    let hosts = order::sorted(aliases::names_of_all(containers));
    assert forall|i: int| 0 <= i < containers.len() implies (aliases::names_of(
        #[trigger] containers[i],
    ).contains(x) <==> has_name(containers[i], x)) by {
        lemma_names_of(containers[i], x);
    }
    if exists|i: int|
        0 <= i < containers.len() && aliases::names_of(#[trigger] containers[i]).contains(x) {
        let i = choose|i: int|
            0 <= i < containers.len() && aliases::names_of(#[trigger] containers[i]).contains(x);
        assert(has_name(containers[i], x));
    }
    if exists|i: int| 0 <= i < containers.len() && has_name(#[trigger] containers[i], x) {
        let i = choose|i: int| 0 <= i < containers.len() && has_name(#[trigger] containers[i], x);
        assert(aliases::names_of(containers[i]).contains(x));
    }
    let r = order::lex();
    assert forall|i: int, j: int| 0 <= i < j < hosts.len() implies order::lex_le(
        #[trigger] hosts[i],
        #[trigger] hosts[j],
    ) by {
        assert(r(hosts[i], hosts[j]));
    }
}

proof fn lemma_names_of(c: ContainerView, x: Seq<char>)
    ensures
        aliases::names_of(c).contains(x) <==> has_name(c, x),
{
    let names = aliases::names_of(c);
    let hosts = c.routes.map_values(|r: RouteView| r.host);
    if names.contains(x) {
        let k = names.index_of(x);
        if k < hosts.len() {
            assert(c.routes[k].host == x);
        } else {
            assert(c.aliases[k - hosts.len()] == x);
        }
    }
    if exists|i: int| 0 <= i < c.routes.len() && (#[trigger] c.routes[i]).host == x {
        let i = choose|i: int| 0 <= i < c.routes.len() && (#[trigger] c.routes[i]).host == x;
        assert(names[i] == x);
    }
    if exists|j: int| 0 <= j < c.aliases.len() && #[trigger] c.aliases[j] == x {
        let j = choose|j: int| 0 <= j < c.aliases.len() && #[trigger] c.aliases[j] == x;
        assert(names[hosts.len() + j] == x);
    }
}

/// The proxy's own names are the name of its container, and what stands before the first dot of it.
pub proof fn lemma_own_names(n: Seq<char>, a: Seq<char>, rest: Seq<char>)
    ensures
        aliases::is_own_name(Some(n), n),
        n == a + seq!['.'] + rest && !a.contains('.') ==> aliases::is_own_name(Some(n), a),
        aliases::is_own_name(Some(n), a) && a != n ==> !a.contains('.') && exists|r: Seq<char>|
            n == #[trigger] (a + seq!['.'] + r),
        !aliases::is_own_name(None, a),
{
    if n == a + seq!['.'] + rest && !a.contains('.') {
        text::lemma_cut_first(a, rest, '.');
    }
    text_laws::lemma_cut_first_parts(n, '.');
    if aliases::is_own_name(Some(n), a) && a != n {
        match text::cut_first(n, '.') {
            Some((x, r)) => {
                assert(n == a + seq!['.'] + r);
            },
            None => {},
        }
    }
}

// ---------------------------------------------------------------------------------------------
// The plan
// ---------------------------------------------------------------------------------------------

/// The aliases are as they should be: all hosts are there, and nothing else but the proxy's own
/// names.
pub open spec fn is_right(
    hosts: Seq<Seq<char>>,
    current: Seq<Seq<char>>,
    name: Option<Seq<char>>,
) -> bool {
    &&& forall|x: Seq<char>| #[trigger] hosts.contains(x) ==> current.contains(x)
    &&& forall|x: Seq<char>| #[trigger]
        current.contains(x) ==> hosts.contains(x) || aliases::is_own_name(name, x)
}

/// Without hosts nothing is done. A proxy that is not on the network is connected with the hosts as
/// they are. One that is there is left alone where its aliases are right, and otherwise connected
/// again with the hosts and those of its own names that it had, in order.
pub proof fn lemma_plan(
    hosts: Seq<Seq<char>>,
    current: Seq<Seq<char>>,
    name: Option<Seq<char>>,
    x: Seq<char>,
)
    ensures
        hosts.len() == 0 ==> aliases::plan_for(hosts, None, name) == PlanView::Keep
            && aliases::plan_for(hosts, Some(current), name) == PlanView::Keep,
        hosts.len() > 0 ==> aliases::plan_for(hosts, None, name) == PlanView::Connect(hosts),
        hosts.len() > 0 && is_right(hosts, current, name) ==> aliases::plan_for(
            hosts,
            Some(current),
            name,
        ) == PlanView::Keep,
        hosts.len() > 0 && !is_right(hosts, current, name) ==> (aliases::plan_for(
            hosts,
            Some(current),
            name,
        ) matches PlanView::Reconnect(v) && (v.contains(x) <==> hosts.contains(x) || (
        current.contains(x) && aliases::is_own_name(name, x))) && forall|i: int, j: int|
            0 <= i < j < v.len() ==> order::lex_le(#[trigger] v[i], #[trigger] v[j])),
{
    if hosts.len() > 0 && is_right(hosts, current, name) {
        aliases::lemma_settled(hosts, current, name);
    }
    if hosts.len() > 0 && !is_right(hosts, current, name) {
        if aliases::plan_for(hosts, Some(current), name) == PlanView::Keep {
            assert forall|y: Seq<char>| #[trigger] hosts.contains(y) implies current.contains(y) by {
                aliases::lemma_keep_is_right(hosts, current, name, y);
            }
            assert forall|y: Seq<char>| #[trigger] current.contains(y) implies hosts.contains(y)
                || aliases::is_own_name(name, y) by {
                aliases::lemma_keep_is_right(hosts, current, name, y);
            }
            assert(is_right(hosts, current, name));
        }
        let v = aliases::merged(hosts, current, name);
        aliases::lemma_merged(hosts, current, name, x);
        let all = aliases::with_new(
            current.filter(aliases::stays(hosts, name)),
            hosts.filter(aliases::absent(current)),
        );
        order::lemma_sorted(all);
        let r = order::lex();
        assert forall|i: int, j: int| 0 <= i < j < v.len() implies order::lex_le(
            #[trigger] v[i],
            #[trigger] v[j],
        ) by {
            assert(r(v[i], v[j]));
        }
    }
}

/// A proxy that has no alias twice is not given one twice.
pub proof fn lemma_plan_once(
    hosts: Seq<Seq<char>>,
    current: Seq<Seq<char>>,
    name: Option<Seq<char>>,
)
    requires
        current.no_duplicates(),
    ensures
        aliases::plan_for(hosts, Some(current), name) matches PlanView::Reconnect(v)
            ==> v.no_duplicates(),
{
    let kept = current.filter(aliases::stays(hosts, name));
    let missing = hosts.filter(aliases::absent(current));
    let all = aliases::with_new(kept, missing);
    let v = order::sorted(all);
    lemma_filter_once(current, aliases::stays(hosts, name));
    lemma_with_new_once(kept, missing);
    order::lemma_sorted(all);
    all.lemma_multiset_has_no_duplicates();
    v.lemma_multiset_has_no_duplicates_conv();
}

proof fn lemma_filter_once(s: Seq<Seq<char>>, p: spec_fn(Seq<char>) -> bool)
    requires
        s.no_duplicates(),
    ensures
        s.filter(p).no_duplicates(),
    decreases s.len(),
{
    reveal(Seq::filter);
    if s.len() > 0 {
        let init = s.drop_last();
        lemma_filter_once(init, p);
        let before = init.filter(p);
        let after = s.filter(p);
        assert forall|i: int, j: int| 0 <= i < j < after.len() implies after[i] != after[j] by {
            if j == before.len() {
                assert(before.contains(before[i]));
                init.lemma_filter_contains_rev(p, before[i]);
                let k = init.index_of(before[i]);
                assert(s[k] != s[s.len() - 1]);
            }
        }
    }
}

proof fn lemma_with_new_once(v: Seq<Seq<char>>, more: Seq<Seq<char>>)
    requires
        v.no_duplicates(),
    ensures
        aliases::with_new(v, more).no_duplicates(),
    decreases more.len(),
{
    if more.len() > 0 {
        lemma_with_new_once(v, more.drop_last());
    }
}

/// A round without hosts is over at once. Otherwise the proxy's own id is asked for, and then its
/// aliases under that id; a question that is not answered ends the round.
pub proof fn lemma_round_begins(hosts: Seq<Seq<char>>, id: Seq<char>)
    ensures
        ({
            let over = (AliasStateView::Finished, AliasActionView::Finish);
            let first = aliases::sync_start(hosts);
            let second = aliases::sync_next(first.0, AliasEventView::SelfId(Some(id)));
            &&& hosts.len() == 0 ==> first == over
            &&& hosts.len() > 0 ==> {
                &&& first.1 == AliasActionView::ResolveSelfId
                &&& aliases::sync_next(first.0, AliasEventView::SelfId(None)) == over
                &&& second.1 == AliasActionView::Inspect(id)
                &&& aliases::sync_next(second.0, AliasEventView::Attached(None)) == over
            }
        }),
{
}

/// A proxy that is not on the network is connected with all hosts, under its own id. One that is
/// there has its name asked for. Where its aliases are right the round is over; otherwise it is
/// disconnected and, where that worked, connected again with the aliases of the plan, under its own
/// id both times. Then the round is over.
pub proof fn lemma_round_goes_on(
    hosts: Seq<Seq<char>>,
    id: Seq<char>,
    current: Seq<Seq<char>>,
    name: Option<Seq<char>>,
    ok: bool,
)
    requires
        hosts.len() > 0,
    ensures
        ({
            let over = (AliasStateView::Finished, AliasActionView::Finish);
            let start = aliases::sync_next(
                aliases::sync_start(hosts).0,
                AliasEventView::SelfId(Some(id)),
            ).0;
            let joined = aliases::sync_next(start, AliasEventView::Attached(Some(None)));
            let there = aliases::sync_next(start, AliasEventView::Attached(Some(Some(current))));
            let planned = aliases::sync_next(there.0, AliasEventView::SelfName(name));
            let gone = aliases::sync_next(planned.0, AliasEventView::Disconnected(true));
            &&& joined.1 == AliasActionView::Connect(id, hosts)
            &&& aliases::sync_next(joined.0, AliasEventView::Connected(ok)) == over
            &&& there.1 == AliasActionView::ResolveSelfName
            &&& is_right(hosts, current, name) ==> planned == over
            &&& !is_right(hosts, current, name) ==> {
                &&& planned.1 == AliasActionView::Disconnect(id)
                &&& aliases::plan_for(hosts, Some(current), name) matches PlanView::Reconnect(v)
                    && gone.1 == AliasActionView::Connect(id, v)
                &&& aliases::sync_next(planned.0, AliasEventView::Disconnected(false)) == over
                &&& aliases::sync_next(gone.0, AliasEventView::Connected(ok)) == over
            }
        }),
{
    lemma_plan(hosts, current, name, Seq::empty());
    lemma_plan(hosts, current, None, Seq::empty());
}

/// The event is one that the round waits for.
pub open spec fn is_awaited(state: AliasStateView, event: AliasEventView) -> bool {
    match state {
        AliasStateView::NeedId { .. } => event is SelfId,
        AliasStateView::NeedAttached { .. } => event is Attached,
        AliasStateView::NeedName { .. } => event is SelfName,
        AliasStateView::NeedDisconnect { .. } => event is Disconnected,
        _ => false,
    }
}

/// Whatever else happens to a round than what it waits for ends it.
pub proof fn lemma_anything_else_ends(state: AliasStateView, event: AliasEventView)
    requires
        !is_awaited(state, event),
    ensures
        aliases::sync_next(state, event) == (AliasStateView::Finished, AliasActionView::Finish),
{
}

// ---------------------------------------------------------------------------------------------
// Answers of the Docker API
// ---------------------------------------------------------------------------------------------

/// The network has an address that is not empty.
pub open spec fn addressed(n: NetworkView) -> bool {
    n.ip matches Some(ip) && ip.len() > 0
}

/// The address of a container is the first one on a network that the proxy is on; where there is none,
/// the first on any network; and where there is none either, it has no address.
pub proof fn lemma_first_shared_address(networks: Seq<NetworkView>, own: Seq<Seq<char>>, i: int)
    ensures
        0 <= i < networks.len() && addressed(networks[i]) && own.contains(networks[i].name) && (
        forall|j: int|
            0 <= j < i ==> !(addressed(#[trigger] networks[j]) && own.contains(networks[j].name)))
            ==> docker::address_of(networks, own) == networks[i].ip,
        0 <= i < networks.len() && addressed(networks[i]) && (forall|j: int|
            0 <= j < i ==> !addressed(#[trigger] networks[j])) && (forall|j: int|
            0 <= j < networks.len() ==> !(addressed(#[trigger] networks[j]) && own.contains(
                networks[j].name,
            ))) ==> docker::address_of(networks, own) == networks[i].ip,
        (forall|j: int| 0 <= j < networks.len() ==> !addressed(#[trigger] networks[j]))
            ==> docker::address_of(networks, own) is None,
{
    lemma_first_address(networks, Some(own), i);
    lemma_first_address(networks, None, i);
}

proof fn lemma_first_address(networks: Seq<NetworkView>, shared: Option<Seq<Seq<char>>>, i: int)
    ensures
        0 <= i < networks.len() && docker::has_address(networks[i], shared) && (forall|j: int|
            0 <= j < i ==> !docker::has_address(#[trigger] networks[j], shared))
            ==> docker::first_address(networks, shared) == networks[i].ip,
        (forall|j: int|
            0 <= j < networks.len() ==> !docker::has_address(#[trigger] networks[j], shared))
            ==> docker::first_address(networks, shared) is None,
    decreases networks.len(),
{
    if networks.len() > 0 {
        let rest = networks.skip(1);
        lemma_first_address(rest, shared, i - 1);
        assert forall|j: int| 0 <= j < rest.len() implies #[trigger] rest[j] == networks[j + 1] by {}
        if !docker::has_address(networks[0], shared) {
            if 0 <= i < networks.len() && docker::has_address(networks[i], shared) && (forall|j: int|
                0 <= j < i ==> !docker::has_address(#[trigger] networks[j], shared)) {
                assert(rest[i - 1] == networks[i]);
                assert forall|j: int| 0 <= j < i - 1 implies !docker::has_address(
                    #[trigger] rest[j],
                    shared,
                ) by {
                    assert(!docker::has_address(networks[j + 1], shared));
                }
            }
            if forall|j: int|
                0 <= j < networks.len() ==> !docker::has_address(#[trigger] networks[j], shared) {
                assert forall|j: int| 0 <= j < rest.len() implies !docker::has_address(
                    #[trigger] rest[j],
                    shared,
                ) by {
                    assert(!docker::has_address(networks[j + 1], shared));
                }
            }
        }
    }
}

/// A listed container is managed exactly where its label `dormant.enable` is `true` and it has an id
/// and a name; and what is managed is the container with that id.
pub proof fn lemma_listed_is_managed(c: ContainerSummary)
    ensures
        docker::managed(c) is Some <==> (c.labels.deep_view() matches Some(l) && labels::label(
            l,
            "dormant.enable"@,
        ) == Some("true"@)) && c.id is Some && (c.names.deep_view() matches Some(v) && v.len() > 0),
        docker::managed(c) matches Some(m) ==> Some(m.id) == c.id.deep_view() && m.name
            == c.names.deep_view()->0[0] && m.created == c.created && (m.running <==> c.state
            == Some(ContainerState::Running)) && (m.port is None ==> (c.ports.deep_view() matches Some(
            v,
        ) ==> v.len() == 0)),
{
}

/// A container runs where that is said of it, and is ready where it runs and is not said to be
/// anything but healthy.
pub proof fn lemma_ready(x: Inspection)
    ensures
        x.runs() <==> x.running == Some(true),
        x.ready() <==> x.running == Some(true) && (x.health matches Some(h) ==> h
            == HealthStatus::Healthy),
{
}

/// The routes are read anew after an event exactly where it says that a container was created,
/// started, stopped, destroyed or renamed, or that it died; the aliases are seen to exactly after
/// that, where there is a network for them; and there is a pause, of a second, exactly after an error.
pub proof fn lemma_watch(event: WatchEvent, with_aliases: bool)
    ensures
        ({
            let next = docker::watch_next(event, with_aliases);
            &&& next == WatchAction::SyncRoutes <==> (event matches WatchEvent::Event(Some(action))
                && (action@ == "create"@ || action@ == "start"@ || action@ == "stop"@ || action@
                == "destroy"@ || action@ == "die"@ || action@ == "rename"@))
            &&& next == WatchAction::SyncAliases <==> event is RoutesSynced && with_aliases
            &&& next is Wait <==> event is StreamError
            &&& next is Wait ==> next == WatchAction::Wait(Duration { secs: 1, nanos: 0 })
        }),
{
}

} // verus!
