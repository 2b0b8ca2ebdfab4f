//! What holds of starts: what is started for a container or a group, in which order, what is waited
//! for, and where a container is ready.

use crate::config;
use crate::container;
use crate::container::{ContainerView, DependencyView};
use crate::level_laws;
use crate::levels;
use crate::levels::{Found, Member, Wave};
use crate::number;
use crate::route_laws;
use crate::router;
use crate::router::RouterView;
use crate::sequences;
use crate::starts;
use crate::starts::{LevelActionView, LevelError, LevelEventView, LevelStateView, TargetView};
use crate::startup;
use crate::startup::{
    HealthAction, HealthEvent, HealthWait, StartActionView, StartError, StartEventView,
    StartStateView,
};
use crate::text_laws;
use crate::time::Duration;
use vstd::prelude::*;

verus! {

// ---------------------------------------------------------------------------------------------
// What a container depends on
// ---------------------------------------------------------------------------------------------

/// `x` is a container of the compose project of `c` for this service.
pub open spec fn provides(x: ContainerView, service: Seq<char>, c: ContainerView) -> bool {
    x.compose_project == c.compose_project && x.compose_service == Some(service)
}

/// The first container that provides the service for `c` is the one at `k`.
pub open spec fn first_provider(
    containers: Seq<ContainerView>,
    service: Seq<char>,
    c: ContainerView,
    k: int,
) -> bool {
    &&& 0 <= k < containers.len()
    &&& provides(containers[k], service, c)
    &&& forall|j: int| 0 <= j < k ==> !provides(#[trigger] containers[j], service, c)
}

/// What a container depends on is found for each of its dependencies by itself, in their order: for
/// one dependency it is the first container of the same compose project with that service, and
/// nothing where there is none.
pub proof fn lemma_dependencies_one_by_one(
    c: ContainerView,
    containers: Seq<ContainerView>,
    a: Seq<DependencyView>,
    b: Seq<DependencyView>,
    d: DependencyView,
    k: int,
)
    ensures
        ({
            let found = |deps: Seq<DependencyView>| (ContainerView {
                depends_on: deps,
                ..c
            }).dependencies(containers);
            &&& found(a + b) == found(a) + found(b)
            &&& first_provider(containers, d.service, c, k) ==> found(seq![d]) == seq![containers[k]]
            &&& (forall|j: int|
                0 <= j < containers.len() ==> !provides(#[trigger] containers[j], d.service, c))
                ==> found(seq![d]) == Seq::<ContainerView>::empty()
        }),
{
    let f = |x: DependencyView| c.dependency(x.service, containers);
    lemma_dependencies_of(c, containers, a + b);
    lemma_dependencies_of(c, containers, a);
    lemma_dependencies_of(c, containers, b);
    lemma_dependencies_of(c, containers, seq![d]);
    sequences::lemma_filter_map_joined(a, b, f);
    Seq::lemma_filter_map_singleton(d, f);
    lemma_provider(c, containers, d.service, k);
}

proof fn lemma_dependencies_of(
    c: ContainerView,
    containers: Seq<ContainerView>,
    deps: Seq<DependencyView>,
)
    ensures
        (ContainerView { depends_on: deps, ..c }).dependencies(containers) == deps.filter_map(
            |x: DependencyView| c.dependency(x.service, containers),
        ),
    decreases deps.len(),
{
    reveal(Seq::filter_map);
    let own = ContainerView { depends_on: deps, ..c };
    assert forall|service: Seq<char>| #[trigger]
        own.dependency(service, containers) == c.dependency(service, containers) by {
        assert((|x: ContainerView| own.is_dependency(service, x)) =~= (|x: ContainerView|
            c.is_dependency(service, x)));
    }
    assert((|x: DependencyView| own.dependency(x.service, containers)) =~= (|x: DependencyView|
        c.dependency(x.service, containers)));
}

proof fn lemma_provider(c: ContainerView, containers: Seq<ContainerView>, service: Seq<char>, k: int)
    ensures
        first_provider(containers, service, c, k) ==> c.dependency(service, containers) == Some(
            containers[k],
        ),
        (forall|j: int|
            0 <= j < containers.len() ==> !provides(#[trigger] containers[j], service, c))
            ==> c.dependency(service, containers) is None,
{
    let p = |x: ContainerView| c.is_dependency(service, x);
    if first_provider(containers, service, c, k) {
        assert forall|j: int| 0 <= j < k implies !p(#[trigger] containers[j]) by {
            assert(!provides(containers[j], service, c));
        }
        container::lemma_first_such_at(containers, p, k);
    }
    if forall|j: int| 0 <= j < containers.len() ==> !provides(#[trigger] containers[j], service, c) {
        assert forall|j: int| 0 <= j < containers.len() implies !p(#[trigger] containers[j]) by {
            assert(!provides(containers[j], service, c));
        }
        container::lemma_first_such_none(containers, p);
    }
}

/// A container depends on another exactly where that is the first to provide the service of one of
/// its dependencies.
pub proof fn lemma_depends_on(c: ContainerView, containers: Seq<ContainerView>, d: ContainerView)
    ensures
        c.dependencies(containers).contains(d) <==> exists|i: int, k: int|
            0 <= i < c.depends_on.len() && #[trigger] first_provider(
                containers,
                (#[trigger] c.depends_on[i]).service,
                c,
                k,
            ) && containers[k] == d,
{
    let f = |x: DependencyView| c.dependency(x.service, containers);
    sequences::lemma_filter_map_contains(c.depends_on, f, d);
    if c.dependencies(containers).contains(d) {
        let i = choose|i: int|
            0 <= i < c.depends_on.len() && f(#[trigger] c.depends_on[i]) == Some(d);
        let k = lemma_some_provider(c, containers, c.depends_on[i].service, containers.len());
        lemma_provider(c, containers, c.depends_on[i].service, k);
        assert(containers[k] == d);
    }
    if exists|i: int, k: int|
        0 <= i < c.depends_on.len() && #[trigger] first_provider(
            containers,
            (#[trigger] c.depends_on[i]).service,
            c,
            k,
        ) && containers[k] == d {
        let (i, k) = choose|i: int, k: int|
            0 <= i < c.depends_on.len() && #[trigger] first_provider(
                containers,
                (#[trigger] c.depends_on[i]).service,
                c,
                k,
            ) && containers[k] == d;
        lemma_provider(c, containers, c.depends_on[i].service, k);
        assert(f(c.depends_on[i]) == Some(d));
    }
}

proof fn lemma_some_provider(
    c: ContainerView,
    containers: Seq<ContainerView>,
    service: Seq<char>,
    n: nat,
) -> (k: int)
    requires
        n <= containers.len(),
        c.dependency(service, containers) is Some,
        forall|j: int| n <= j < containers.len() ==> !provides(#[trigger] containers[j], service, c)
            || exists|m: int| 0 <= m < n && provides(#[trigger] containers[m], service, c),
    ensures
        first_provider(containers, service, c, k),
    decreases n,
{
    if exists|m: int| 0 <= m < n && provides(#[trigger] containers[m], service, c) {
        if exists|m: int| 0 <= m < n - 1 && provides(#[trigger] containers[m], service, c) {
            lemma_some_provider(c, containers, service, (n - 1) as nat)
        } else {
            n - 1
        }
    } else {
        assert forall|j: int| 0 <= j < containers.len() implies !provides(
            #[trigger] containers[j],
            service,
            c,
        ) by {}
        lemma_provider(c, containers, service, 0);
        0
    }
}

/// A dependency is reported missing exactly where no container of the same compose project provides
/// its service.
pub proof fn lemma_missing(c: ContainerView, d: DependencyView, containers: Seq<ContainerView>, k: int)
    ensures
        first_provider(containers, d.service, c, k) ==> levels::missing(c, d, containers) is None,
        (forall|j: int|
            0 <= j < containers.len() ==> !provides(#[trigger] containers[j], d.service, c))
            ==> levels::missing(c, d, containers) == Some(d.service),
{
    lemma_provider(c, containers, d.service, k);
}

/// Where requests for a container go: its address, or its id while that is not known, and its port,
/// where it has one.
pub proof fn lemma_container_target(c: ContainerView, host: Seq<char>)
    requires
        c.ip == Some(host) || (c.ip is None && c.id == host),
    ensures
        c.port is None ==> c.target() == host,
        c.port matches Some(p) ==> c.target() == host + seq![':'] + number::decimal_of(p as nat),
{
}

// ---------------------------------------------------------------------------------------------
// What is started for a group
// ---------------------------------------------------------------------------------------------

/// What is started for a group is exactly its members and every managed container that a member
/// leads to over at most as many dependencies as the depth allows.
pub proof fn lemma_group_levels(r: RouterView, group: Seq<char>, id: Seq<char>)
    ensures
        level_laws::is_started(startup::group_levels(r, group), id) <==> router::has_id(
            r.containers(),
            id,
        ) && exists|k: int, n: nat|
            0 <= k < r.group(group).len() && n <= config::MAX_DEPENDENCY_DEPTH
                && #[trigger] level_laws::leads(r.containers(), r.group(group)[k].id, id, n),
{
    level_laws::lemma_started_are_needed(
        r.group(group),
        r.containers(),
        config::MAX_DEPENDENCY_DEPTH,
        id,
    );
}

/// Every member of a group is started with it.
pub proof fn lemma_group_member_started(r: RouterView, group: Seq<char>, k: int)
    requires
        0 <= k < r.group(group).len(),
    ensures
        level_laws::is_started(startup::group_levels(r, group), r.group(group)[k].id),
{
    let id = r.group(group)[k].id;
    route_laws::lemma_group_listed(r, group, k);
    lemma_group_levels(r, group, id);
    assert(level_laws::leads(r.containers(), r.group(group)[k].id, id, 0));
}

/// What a member of a group depends on, up to ten dependencies away, is started with the group.
pub proof fn lemma_group_dependency_started(
    r: RouterView,
    group: Seq<char>,
    k: int,
    id: Seq<char>,
    n: nat,
)
    requires
        0 <= k < r.group(group).len(),
        router::has_id(r.containers(), id),
        n <= 10,
        level_laws::leads(r.containers(), r.group(group)[k].id, id, n),
    ensures
        level_laws::is_started(startup::group_levels(r, group), id),
{
    lemma_group_levels(r, group, id);
}

/// What a container depends on is started in an earlier level of its group, unless it leads back to
/// the container in a circle.
pub proof fn lemma_group_order(
    r: RouterView,
    group: Seq<char>,
    k: int,
    m: int,
    c: ContainerView,
    d: ContainerView,
)
    requires
        0 <= k < startup::group_levels(r, group).len(),
        0 <= m < startup::group_levels(r, group).len(),
        levels::by_id(r.containers(), c.id) == Some(c),
        c.dependencies(r.containers()).contains(d),
        level_laws::in_level(startup::group_levels(r, group)[k], c.id),
        level_laws::in_level(startup::group_levels(r, group)[m], d.id),
        !level_laws::leads_to(r.containers(), d.id, c.id),
    ensures
        m < k,
{
    level_laws::lemma_dependencies_first(
        r.group(group),
        r.containers(),
        config::MAX_DEPENDENCY_DEPTH,
        k,
        m,
        c,
        d,
    );
}

/// No container is started in two levels of a group.
pub proof fn lemma_group_started_once(
    r: RouterView,
    group: Seq<char>,
    k: int,
    m: int,
    id: Seq<char>,
)
    requires
        0 <= k < m < startup::group_levels(r, group).len(),
    ensures
        !(level_laws::in_level(startup::group_levels(r, group)[k], id) && level_laws::in_level(
            startup::group_levels(r, group)[m],
            id,
        )),
{
    level_laws::lemma_started_once(
        r.group(group),
        r.containers(),
        config::MAX_DEPENDENCY_DEPTH,
        k,
        m,
        id,
    );
}

/// One dependency leads from a container to another exactly where the first container with the one id
/// depends on a container with the other.
pub proof fn lemma_step(
    containers: Seq<ContainerView>,
    a: Seq<char>,
    b: Seq<char>,
    i: int,
    d: ContainerView,
)
    requires
        0 <= i < containers.len(),
        containers[i].id == a,
        forall|j: int| 0 <= j < i ==> (#[trigger] containers[j]).id != a,
    ensures
        containers[i].dependencies(containers).contains(d) && d.id == b ==> level_laws::step(
            containers,
            a,
            b,
        ),
        level_laws::step(containers, a, b) ==> exists|x: ContainerView| #[trigger]
            containers[i].dependencies(containers).contains(x) && x.id == b,
{
    let p = |c: ContainerView| c.id == a;
    assert forall|j: int| 0 <= j < i implies !p(#[trigger] containers[j]) by {}
    container::lemma_first_such_at(containers, p, i);
    let deps = containers[i].dependencies(containers);
    if deps.contains(d) && d.id == b {
        assert(deps[deps.index_of(d)].id == b);
    }
    if level_laws::step(containers, a, b) {
        let k = choose|k: int| 0 <= k < deps.len() && (#[trigger] deps[k]).id == b;
        assert(deps.contains(deps[k]));
    }
}

// ---------------------------------------------------------------------------------------------
// What is waited for
// ---------------------------------------------------------------------------------------------

/// The condition of a dependency on a service is that of the first dependency on it.
pub proof fn lemma_condition_on(deps: Seq<DependencyView>, service: Seq<char>, i: int)
    ensures
        0 <= i < deps.len() && deps[i].service == service && (forall|j: int|
            0 <= j < i ==> (#[trigger] deps[j]).service != service) ==> levels::condition_on(
            deps,
            Some(service),
        ) == Some(deps[i].condition),
        (forall|j: int| 0 <= j < deps.len() ==> (#[trigger] deps[j]).service != service)
            ==> levels::condition_on(deps, Some(service)) is None,
        levels::condition_on(deps, None) is None,
    decreases deps.len(),
{
    if deps.len() > 0 {
        let rest = deps.skip(1);
        lemma_condition_on(rest, service, i - 1);
        assert forall|j: int| 0 <= j < rest.len() implies #[trigger] rest[j] == deps[j + 1] by {}
        if deps[0].service != service {
            if 0 <= i < deps.len() && deps[i].service == service && (forall|j: int|
                0 <= j < i ==> (#[trigger] deps[j]).service != service) {
                assert(rest[i - 1] == deps[i]);
                assert forall|j: int| 0 <= j < i - 1 implies (#[trigger] rest[j]).service
                    != service by {
                    assert(deps[j + 1].service != service);
                }
            }
            if forall|j: int| 0 <= j < deps.len() ==> (#[trigger] deps[j]).service != service {
                assert forall|j: int| 0 <= j < rest.len() implies (#[trigger] rest[j]).service
                    != service by {
                    assert(deps[j + 1].service != service);
                }
            }
        }
    }
}

/// The condition of `f` is the one that some container of `from` depends on it with.
spec fn told_by(f: Found, from: Wave, containers: Seq<ContainerView>) -> bool {
    exists|i: int, d: ContainerView|
        0 <= i < from.len() && #[trigger] level_laws::depends(
            (#[trigger] from[i]).0,
            d,
            containers,
        ) && d.id == f.0 && f.1 == levels::condition_on(
            levels::by_id(containers, from[i].0)->0.depends_on,
            d.compose_service,
        )
}

proof fn lemma_told_dependencies(
    waves: Seq<Wave>,
    wave: Wave,
    c: ContainerView,
    deps: Seq<ContainerView>,
    f: Found,
)
    requires
        levels::with_dependencies(waves, wave, c, deps).contains(f),
        !wave.contains(f),
    ensures
        exists|k: int|
            0 <= k < deps.len() && f == (
                (#[trigger] deps[k]).id,
                levels::condition_on(c.depends_on, deps[k].compose_service),
            ),
    decreases deps.len(),
{
    let init = deps.drop_last();
    let before = levels::with_dependencies(waves, wave, c, init);
    let after = levels::with_dependencies(waves, wave, c, deps);
    if deps.len() > 0 {
        let q = after.index_of(f);
        if q < before.len() {
            assert(before[q] == f);
            assert(before.contains(f));
            lemma_told_dependencies(waves, wave, c, init, f);
            let k = choose|k: int|
                0 <= k < init.len() && f == (
                    (#[trigger] init[k]).id,
                    levels::condition_on(c.depends_on, init[k].compose_service),
                );
            assert(deps[k] == init[k]);
        } else {
            assert(deps[deps.len() - 1] == deps.last());
        }
    }
}

proof fn lemma_told_wave(waves: Seq<Wave>, from: Wave, containers: Seq<ContainerView>, f: Found)
    requires
        levels::next_wave(waves, from, containers).contains(f),
    ensures
        told_by(f, from, containers),
    decreases from.len(),
{
    if from.len() > 0 {
        let init = from.drop_last();
        let before = levels::next_wave(waves, init, containers);
        if before.contains(f) {
            lemma_told_wave(waves, init, containers, f);
            let (i, d) = choose|i: int, d: ContainerView|
                0 <= i < init.len() && #[trigger] level_laws::depends(
                    (#[trigger] init[i]).0,
                    d,
                    containers,
                ) && d.id == f.0 && f.1 == levels::condition_on(
                    levels::by_id(containers, init[i].0)->0.depends_on,
                    d.compose_service,
                );
            assert(from[i] == init[i]);
            assert(level_laws::depends(from[i].0, d, containers));
        } else {
            let last = from.last();
            match levels::by_id(containers, last.0) {
                Some(c) => {
                    let deps = c.dependencies(containers);
                    lemma_told_dependencies(waves, before, c, deps, f);
                    let k = choose|k: int|
                        0 <= k < deps.len() && f == (
                            (#[trigger] deps[k]).id,
                            levels::condition_on(c.depends_on, deps[k].compose_service),
                        );
                    assert(deps.contains(deps[k]));
                    assert(level_laws::depends(from[from.len() - 1].0, deps[k], containers));
                },
                None => {},
            }
        }
    }
}

proof fn lemma_told_waves(waves: Seq<Wave>, containers: Seq<ContainerView>, depth: nat)
    requires
        waves.len() > 0,
        forall|k: int, f: Found|
            0 < k < waves.len() && #[trigger] waves[k].contains(f) ==> told_by(
                f,
                waves[k - 1],
                containers,
            ),
    ensures
        ({
            let r = levels::waves_from(waves, containers, depth);
            &&& r.len() > 0 && r[0] == waves[0]
            &&& forall|k: int, f: Found|
                0 < k < r.len() && #[trigger] r[k].contains(f) ==> told_by(f, r[k - 1], containers)
        }),
    decreases depth,
{
    if depth > 0 {
        let next = levels::next_wave(waves, waves.last(), containers);
        if next.len() > 0 {
            let more = waves.push(next);
            assert forall|k: int, f: Found|
                0 < k < more.len() && #[trigger] more[k].contains(f) implies told_by(
                f,
                more[k - 1],
                containers,
            ) by {
                if k < waves.len() {
                    assert(waves[k].contains(f));
                } else {
                    lemma_told_wave(waves, waves.last(), containers, f);
                }
            }
            lemma_told_waves(more, containers, (depth - 1) as nat);
        }
    }
}

proof fn lemma_targets_unconditional(targets: Seq<ContainerView>, f: Found)
    requires
        levels::first_wave(targets).contains(f),
    ensures
        f.1 is None,
    decreases targets.len(),
{
    if targets.len() > 0 {
        let before = levels::first_wave(targets.drop_last());
        let after = levels::first_wave(targets);
        let q = after.index_of(f);
        if q < before.len() {
            assert(before[q] == f);
            assert(before.contains(f));
            lemma_targets_unconditional(targets.drop_last(), f);
        }
    }
}

proof fn lemma_member_found(waves: Seq<Wave>, containers: Seq<ContainerView>, m: Member) -> (k: int)
    requires
        levels::all_members(waves, containers).contains(m),
    ensures
        0 <= k < waves.len(),
        waves[k].contains((m.0.id, m.1)),
        levels::by_id(containers, m.0.id) == Some(m.0),
        containers.contains(m.0),
    decreases waves.len(),
{
    let init = waves.drop_last();
    let before = levels::all_members(init, containers);
    let here = levels::members(waves.last(), containers);
    let all = levels::all_members(waves, containers);
    let q = all.index_of(m);
    if q < before.len() {
        assert(before[q] == m);
        assert(before.contains(m));
        let k = lemma_member_found(init, containers, m);
        assert(waves[k] == init[k]);
        k
    } else {
        assert(here[q - before.len()] == m);
        assert(here.contains(m));
        let g = |x: Found| levels::member(x, containers);
        sequences::lemma_filter_map_contains(waves.last(), g, m);
        let i = choose|i: int| 0 <= i < waves.last().len() && g(#[trigger] waves.last()[i]) == Some(m);
        let f = waves.last()[i];
        container::lemma_first_such(containers, |c: ContainerView| c.id == f.0);
        assert(m.0.id == f.0 && m.1 == f.1);
        waves.len() - 1
    }
}

proof fn lemma_at_depth_member(all: Seq<Member>, depths: Seq<nat>, d: nat, m: Member)
    requires
        all.len() == depths.len(),
        levels::at_depth(all, depths, d).contains(m),
    ensures
        all.contains(m),
    decreases all.len(),
{
    if all.len() > 0 {
        let init = all.drop_last();
        let before = levels::at_depth(init, depths.drop_last(), d);
        let after = levels::at_depth(all, depths, d);
        let q = after.index_of(m);
        if q < before.len() {
            assert(before[q] == m);
            assert(before.contains(m));
            lemma_at_depth_member(init, depths.drop_last(), d, m);
            assert(all[init.index_of(m)] == m);
        } else {
            assert(all[all.len() - 1] == m);
        }
    }
}

/// The members of the levels are managed containers. A target is waited for without a condition;
/// anything else with the condition under which a container that is started too depends on it.
pub proof fn lemma_condition(
    targets: Seq<ContainerView>,
    containers: Seq<ContainerView>,
    max_depth: usize,
    k: int,
    m: Member,
)
    requires
        0 <= k < levels::levels_of(targets, containers, max_depth).len(),
        levels::levels_of(targets, containers, max_depth)[k].contains(m),
    ensures
        containers.contains(m.0),
        router::has_id(targets, m.0.id) ==> m.1 is None,
        !router::has_id(targets, m.0.id) ==> exists|p: ContainerView, d: ContainerView|
            containers.contains(p) && #[trigger] p.dependencies(containers).contains(d) && d.id
                == m.0.id && m.1 == levels::condition_on(p.depends_on, d.compose_service)
                && level_laws::is_started(
                levels::levels_of(targets, containers, max_depth),
                p.id,
            ),
{
    let first = levels::first_wave(targets);
    let waves = levels::waves_of(targets, containers, max_depth);
    let all = levels::all_members(waves, containers);
    let depths = levels::depths_of(all, levels::wave_numbers(waves, containers), containers);
    lemma_at_depth_member(all, depths, (levels::deepest(depths) - k) as nat, m);
    let w = lemma_member_found(waves, containers, m);
    let f = (m.0.id, m.1);
    lemma_told_waves(seq![first], containers, max_depth as nat);
    level_laws::lemma_waves(targets, containers, max_depth);
    let q = waves[w].index_of(f);
    assert(waves[w][q].0 == m.0.id);
    assert(levels::in_wave(waves[w], m.0.id));
    if w == 0 {
        lemma_targets_unconditional(targets, f);
    } else {
        assert(!levels::in_wave(waves[0], m.0.id));
        assert(told_by(f, waves[w - 1], containers));
        let (i, d) = choose|i: int, d: ContainerView|
            0 <= i < waves[w - 1].len() && #[trigger] level_laws::depends(
                (#[trigger] waves[w - 1][i]).0,
                d,
                containers,
            ) && d.id == f.0 && f.1 == levels::condition_on(
                levels::by_id(containers, waves[w - 1][i].0)->0.depends_on,
                d.compose_service,
            );
        let id = waves[w - 1][i].0;
        let p = levels::by_id(containers, id)->0;
        container::lemma_first_such(containers, |c: ContainerView| c.id == id);
        assert(p.id == id);
        assert(containers[containers.index_of(p)].id == id);
        assert(levels::in_wave(waves[w - 1], id));
        assert(levels::in_waves(waves, id));
        level_laws::lemma_started(targets, containers, max_depth, id);
        assert(p.dependencies(containers).contains(d));
    }
}

/// What was found stays, with its condition, when more is added.
proof fn lemma_found_stays(
    waves: Seq<Wave>,
    wave: Wave,
    c: ContainerView,
    deps: Seq<ContainerView>,
    f: Found,
)
    requires
        wave.contains(f),
    ensures
        levels::with_dependencies(waves, wave, c, deps).contains(f),
    decreases deps.len(),
{
    if deps.len() > 0 {
        let before = levels::with_dependencies(waves, wave, c, deps.drop_last());
        lemma_found_stays(waves, wave, c, deps.drop_last(), f);
        let after = levels::with_dependencies(waves, wave, c, deps);
        assert(after[before.index_of(f)] == f);
    }
}

/// A dependency that was not found before is added with the condition of its container.
proof fn lemma_dependency_found(
    waves: Seq<Wave>,
    wave: Wave,
    c: ContainerView,
    deps: Seq<ContainerView>,
    q: int,
)
    requires
        0 <= q < deps.len(),
        forall|j: int| 0 <= j < q ==> (#[trigger] deps[j]).id != deps[q].id,
        !levels::in_waves(waves, deps[q].id),
        !levels::in_wave(wave, deps[q].id),
    ensures
        levels::with_dependencies(waves, wave, c, deps).contains(
            (deps[q].id, levels::condition_on(c.depends_on, deps[q].compose_service)),
        ),
    decreases deps.len(),
{
    let init = deps.drop_last();
    let before = levels::with_dependencies(waves, wave, c, init);
    let after = levels::with_dependencies(waves, wave, c, deps);
    let f = (deps[q].id, levels::condition_on(c.depends_on, deps[q].compose_service));
    if q < init.len() {
        assert(init[q] == deps[q]);
        assert forall|j: int| 0 <= j < q implies (#[trigger] init[j]).id != init[q].id by {
            assert(deps[j].id != deps[q].id);
        }
        lemma_dependency_found(waves, wave, c, init, q);
        assert(after[before.index_of(f)] == f);
    } else {
        if levels::in_wave(before, f.0) {
            let k = choose|k: int| 0 <= k < before.len() && (#[trigger] before[k]).0 == f.0;
            assert(before.contains(before[k]));
            if wave.contains(before[k]) {
                assert(wave[wave.index_of(before[k])].0 == f.0);
            } else {
                lemma_told_dependencies(waves, wave, c, init, before[k]);
                let j = choose|j: int|
                    0 <= j < init.len() && before[k] == (
                        (#[trigger] init[j]).id,
                        levels::condition_on(c.depends_on, init[j].compose_service),
                    );
                assert(deps[j].id == f.0);
            }
        }
        assert(after[before.len() as int] == f);
    }
}

proof fn lemma_first_tells(
    waves: Seq<Wave>,
    from: Wave,
    containers: Seq<ContainerView>,
    j: int,
    c: ContainerView,
    q: int,
)
    requires
        0 <= j < from.len(),
        levels::by_id(containers, from[j].0) == Some(c),
        0 <= q < c.dependencies(containers).len(),
        forall|i: int|
            0 <= i < q ==> (#[trigger] c.dependencies(containers)[i]).id != c.dependencies(
                containers,
            )[q].id,
        !levels::in_waves(waves, c.dependencies(containers)[q].id),
        forall|i: int, d: ContainerView|
            0 <= i < j && #[trigger] level_laws::depends((#[trigger] from[i]).0, d, containers)
                ==> d.id != c.dependencies(containers)[q].id,
    ensures
        levels::next_wave(waves, from, containers).contains(
            (
                c.dependencies(containers)[q].id,
                levels::condition_on(
                    c.depends_on,
                    c.dependencies(containers)[q].compose_service,
                ),
            ),
        ),
    decreases from.len(),
{
    let init = from.drop_last();
    let before = levels::next_wave(waves, init, containers);
    let deps = c.dependencies(containers);
    let f = (deps[q].id, levels::condition_on(c.depends_on, deps[q].compose_service));
    if j < init.len() {
        assert(init[j] == from[j]);
        assert forall|i: int, d: ContainerView|
            0 <= i < j && #[trigger] level_laws::depends(
                (#[trigger] init[i]).0,
                d,
                containers,
            ) implies d.id != deps[q].id by {
            assert(level_laws::depends(from[i].0, d, containers));
        }
        lemma_first_tells(waves, init, containers, j, c, q);
        match levels::by_id(containers, from.last().0) {
            Some(x) => {
                lemma_found_stays(waves, before, x, x.dependencies(containers), f);
            },
            None => {},
        }
    } else {
        if levels::in_wave(before, f.0) {
            let k = choose|k: int| 0 <= k < before.len() && (#[trigger] before[k]).0 == f.0;
            assert(before.contains(before[k]));
            lemma_told_wave(waves, init, containers, before[k]);
            let (i, d) = choose|i: int, d: ContainerView|
                0 <= i < init.len() && #[trigger] level_laws::depends(
                    (#[trigger] init[i]).0,
                    d,
                    containers,
                ) && d.id == before[k].0 && before[k].1 == levels::condition_on(
                    levels::by_id(containers, init[i].0)->0.depends_on,
                    d.compose_service,
                );
            assert(level_laws::depends(from[i].0, d, containers));
        }
        lemma_dependency_found(waves, before, c, deps, q);
    }
}

/// What is found in a wave that is not the last one tells the next.
proof fn lemma_next_of(waves: Seq<Wave>, containers: Seq<ContainerView>, depth: nat, k: int)
    requires
        waves.len() > 0,
        0 < k < levels::waves_from(waves, containers, depth).len(),
        forall|i: int|
            0 < i < waves.len() ==> #[trigger] waves[i] == levels::next_wave(
                waves.take(i),
                waves[i - 1],
                containers,
            ),
    ensures
        ({
            let r = levels::waves_from(waves, containers, depth);
            r[k] == levels::next_wave(r.take(k), r[k - 1], containers)
        }),
    decreases depth,
{
    if depth > 0 {
        let next = levels::next_wave(waves, waves.last(), containers);
        if next.len() > 0 {
            let more = waves.push(next);
            assert forall|i: int| 0 < i < more.len() implies #[trigger] more[i]
                == levels::next_wave(more.take(i), more[i - 1], containers) by {
                assert(more.take(i) =~= waves.take(i));
                if i == waves.len() {
                    assert(waves.take(i) =~= waves);
                }
            }
            lemma_next_of(more, containers, (depth - 1) as nat, k);
        }
    }
}

/// Where several containers that were found at one distance depend on another, it is waited for with
/// the condition of the first of them.
pub proof fn lemma_first_condition(
    targets: Seq<ContainerView>,
    containers: Seq<ContainerView>,
    max_depth: usize,
    k: int,
    m: Member,
    w: int,
    j: int,
    c: ContainerView,
    q: int,
)
    requires
        0 <= k < levels::levels_of(targets, containers, max_depth).len(),
        levels::levels_of(targets, containers, max_depth)[k].contains(m),
        0 < w < levels::waves_of(targets, containers, max_depth).len(),
        levels::in_wave(levels::waves_of(targets, containers, max_depth)[w], m.0.id),
        0 <= j < levels::waves_of(targets, containers, max_depth)[w - 1].len(),
        levels::by_id(
            containers,
            levels::waves_of(targets, containers, max_depth)[w - 1][j].0,
        ) == Some(c),
        0 <= q < c.dependencies(containers).len(),
        c.dependencies(containers)[q].id == m.0.id,
        forall|i: int|
            0 <= i < q ==> (#[trigger] c.dependencies(containers)[i]).id != m.0.id,
        forall|i: int, d: ContainerView|
            0 <= i < j && #[trigger] level_laws::depends(
                (#[trigger] levels::waves_of(targets, containers, max_depth)[w - 1][i]).0,
                d,
                containers,
            ) ==> d.id != m.0.id,
    ensures
        m.1 == levels::condition_on(
            c.depends_on,
            c.dependencies(containers)[q].compose_service,
        ),
{
    let first = levels::first_wave(targets);
    let waves = levels::waves_of(targets, containers, max_depth);
    let all = levels::all_members(waves, containers);
    let depths = levels::depths_of(all, levels::wave_numbers(waves, containers), containers);
    lemma_at_depth_member(all, depths, (levels::deepest(depths) - k) as nat, m);
    let v = lemma_member_found(waves, containers, m);
    level_laws::lemma_waves(targets, containers, max_depth);
    lemma_next_of(seq![first], containers, max_depth as nat, w);
    let earlier = waves.take(w);
    let f = (m.0.id, m.1);
    let x = waves[v].index_of(f);
    assert(waves[v][x].0 == m.0.id);
    assert(levels::in_wave(waves[v], m.0.id));
    assert(v == w);
    assert(!levels::in_waves(earlier, m.0.id)) by {
        if levels::in_waves(earlier, m.0.id) {
            let i = choose|i: int|
                0 <= i < earlier.len() && levels::in_wave(#[trigger] earlier[i], m.0.id);
            assert(earlier[i] == waves[i]);
            assert(levels::in_wave(waves[i], m.0.id));
        }
    }
    lemma_first_tells(earlier, waves[w - 1], containers, j, c, q);
    let g = (
        m.0.id,
        levels::condition_on(c.depends_on, c.dependencies(containers)[q].compose_service),
    );
    let y = waves[w].index_of(g);
    assert(waves[w][y].0 == waves[w][x].0);
    assert(level_laws::distinct_wave(waves[w]));
    assert(x == y);
}

// ---------------------------------------------------------------------------------------------
// One level after the other
// ---------------------------------------------------------------------------------------------

/// As long as every level comes up, what is started next is the level whose turn it is; after the
/// last one it is the container, to be used on its port; and where there is none, all is ready.
pub proof fn lemma_next_in_turn(ls: Seq<Seq<Member>>, target: TargetView, answers: Seq<Seq<bool>>)
    requires
        answers.len() <= ls.len(),
        forall|i: int|
            0 <= i < answers.len() ==> (#[trigger] answers[i]).len() == ls[i].len() && forall|j: int|
                0 <= j < answers[i].len() ==> #[trigger] answers[i][j],
    ensures
        ({
            let action = starts::after(ls, target, answers).1;
            &&& answers.len() < ls.len() ==> action == LevelActionView::StartLevel(
                ls[answers.len() as int],
            )
            &&& answers.len() == ls.len() ==> (target matches Some((c, port)) ==> action
                == LevelActionView::StartTarget(c, port))
            &&& answers.len() == ls.len() && target is None ==> action == LevelActionView::Ready(
                None,
            )
        }),
{
    assert(starts::came_up(ls, answers, answers.len() as int)) by {
        assert forall|i: int| 0 <= i < answers.len() implies starts::all_up(
            #[trigger] answers[i],
            ls[i].len(),
        ) by {}
    }
    starts::lemma_level_after_level(ls, target, answers);
    if answers.len() < ls.len() {
        assert(ls.skip(answers.len() as int)[0] == ls[answers.len() as int]);
    }
}

/// Where some member of a level does not come up, or the level is not answered for in full, the start
/// has failed and is over, whatever is said of later levels.
pub proof fn lemma_failed_member(
    ls: Seq<Seq<Member>>,
    target: TargetView,
    answers: Seq<Seq<bool>>,
    i: int,
)
    requires
        0 <= i < answers.len(),
        i < ls.len(),
        answers[i].len() != ls[i].len() || exists|j: int|
            0 <= j < answers[i].len() && !#[trigger] answers[i][j],
        forall|k: int|
            0 <= k < i ==> (#[trigger] answers[k]).len() == ls[k].len() && forall|j: int|
                0 <= j < answers[k].len() ==> #[trigger] answers[k][j],
    ensures
        starts::after(ls, target, answers).0 == LevelStateView::Finished,
        starts::after(ls, target, answers).1 == LevelActionView::Fail(LevelError::Member),
{
    assert(starts::came_up(ls, answers, i)) by {
        assert forall|k: int| 0 <= k < i implies starts::all_up(
            #[trigger] answers[k],
            ls[k].len(),
        ) by {}
    }
    starts::lemma_failed_level_ends(ls, target, answers, i);
}

/// A start whose time is over has failed for that reason, wherever it was; a container that does not
/// come up makes it fail for that one.
pub proof fn lemma_failed_otherwise(state: LevelStateView)
    requires
        !(state is Finished),
    ensures
        starts::next(state, LevelEventView::TimedOut) == (
            LevelStateView::Finished,
            LevelActionView::Fail(LevelError::TimedOut),
        ),
        starts::next(LevelStateView::Target, LevelEventView::Started(None)) == (
            LevelStateView::Finished,
            LevelActionView::Fail(LevelError::Target),
        ),
{
}

/// An answer that a start of levels does not wait for makes it fail, and one that is over stays so.
pub proof fn lemma_unexpected_answer(
    size: nat,
    later: Seq<Seq<Member>>,
    target: TargetView,
    addr: Option<Seq<char>>,
    up: Seq<bool>,
    event: LevelEventView,
)
    ensures
        starts::next(LevelStateView::Level { size, later, target }, LevelEventView::Started(addr))
            == (LevelStateView::Finished, LevelActionView::Fail(LevelError::Member)),
        starts::next(LevelStateView::Target, LevelEventView::Members(up)) == (
            LevelStateView::Finished,
            LevelActionView::Fail(LevelError::Target),
        ),
        starts::next(LevelStateView::Finished, event) == (
            LevelStateView::Finished,
            LevelActionView::Fail(LevelError::Member),
        ),
{
}

// ---------------------------------------------------------------------------------------------
// Starting one container
// ---------------------------------------------------------------------------------------------

/// `addr` is the host with the port that is asked for, or else with the container's own, or else
/// alone.
pub open spec fn is_address(
    c: ContainerView,
    asked: Option<u16>,
    host: Seq<char>,
    addr: Seq<char>,
) -> bool {
    &&& asked matches Some(p) ==> addr == host + seq![':'] + number::decimal_of(p as nat)
    &&& asked is None ==> (c.port matches Some(p) ==> addr == host + seq![':']
        + number::decimal_of(p as nat))
    &&& asked is None && c.port is None ==> addr == host
}

/// A container that runs is not started again: it is ready at its address; where that is not known,
/// at the one that its entry holds, or else at its id.
pub proof fn lemma_running_address(
    c: ContainerView,
    asked: Option<u16>,
    ip: Option<Seq<char>>,
    host: Seq<char>,
)
    requires
        host == (match ip {
            Some(found) => found,
            None => match c.ip {
                Some(known) => known,
                None => c.id,
            },
        }),
    ensures
        ({
            let (s1, a1) = startup::start_next(
                c,
                asked,
                StartStateView::AskRunning,
                StartEventView::Running(true),
            );
            let (s2, a2) = startup::start_next(c, asked, s1, StartEventView::Address(ip));
            &&& a1 == StartActionView::ResolveAddress
            &&& s2 == StartStateView::Finished
            &&& a2 matches StartActionView::Ready(addr) && is_address(c, asked, host, addr)
        }),
{
}

/// A container that does not run is told to start, and has as long as it may take from then on: it
/// is looked at before that time is over, and given up when it is.
pub proof fn lemma_time_to_start(c: ContainerView, asked: Option<u16>, now: Duration)
    ensures
        startup::start_next(
            c,
            asked,
            StartStateView::AskRunning,
            StartEventView::Running(false),
        ) == (StartStateView::Starting, StartActionView::Start),
        c.startup_timeout.secs > 0 || c.startup_timeout.nanos > 0 ==> startup::start_next(
            c,
            asked,
            StartStateView::Starting,
            StartEventView::Started(now),
        ) == (
            StartStateView::AwaitRunning {
                deadline: ((now.secs + c.startup_timeout.secs) * 1_000_000_000 + now.nanos
                    + c.startup_timeout.nanos) as nat,
            },
            StartActionView::CheckRunning,
        ),
        c.startup_timeout.secs == 0 && c.startup_timeout.nanos == 0 ==> startup::start_next(
            c,
            asked,
            StartStateView::Starting,
            StartEventView::Started(now),
        ) == (StartStateView::Finished, StartActionView::Fail(StartError::NotReady)),
{
}

/// Between two looks at a container half a second passes. The next look asks whether it runs, as
/// long as it was not seen running, and then for its address; from the deadline on it is given up.
pub proof fn lemma_looks(
    c: ContainerView,
    asked: Option<u16>,
    deadline: nat,
    now: Duration,
    ip: Seq<char>,
    port: u16,
)
    ensures
        ({
            let half = StartActionView::Pause(Duration { secs: 0, nanos: 500_000_000 });
            let stopped = startup::start_next(
                c,
                asked,
                StartStateView::AwaitRunning { deadline },
                StartEventView::Running(false),
            );
            let seen = startup::start_next(
                c,
                asked,
                StartStateView::AwaitRunning { deadline },
                StartEventView::Running(true),
            );
            let nowhere = startup::start_next(
                c,
                asked,
                StartStateView::AwaitAddress { deadline },
                StartEventView::Address(None),
            );
            let shut = startup::start_next(
                c,
                asked,
                StartStateView::AwaitPort { deadline, ip, port },
                StartEventView::PortOpen(false),
            );
            let again = startup::start_next(c, asked, stopped.0, StartEventView::Paused(now));
            let on = startup::start_next(c, asked, shut.0, StartEventView::Paused(now));
            &&& stopped.1 == half
            &&& seen == (
                StartStateView::AwaitAddress { deadline },
                StartActionView::ResolveAddress,
            )
            &&& nowhere.1 == half && nowhere.0 == shut.0
            &&& shut.1 == half
            &&& now.secs * 1_000_000_000 + now.nanos < deadline ==> again == (
                StartStateView::AwaitRunning { deadline },
                StartActionView::CheckRunning,
            ) && on == (
                StartStateView::AwaitAddress { deadline },
                StartActionView::ResolveAddress,
            )
            &&& now.secs * 1_000_000_000 + now.nanos >= deadline ==> again == (
                StartStateView::Finished,
                StartActionView::Fail(StartError::NotReady),
            ) && on == again
        }),
{
}

/// A container that was started is tried at its address, on the port that is asked for or else on
/// its own; without either it is ready as soon as it has an address.
pub proof fn lemma_port_is_tried(
    c: ContainerView,
    asked: Option<u16>,
    deadline: nat,
    ip: Seq<char>,
)
    ensures
        ({
            let next = startup::start_next(
                c,
                asked,
                StartStateView::AwaitAddress { deadline },
                StartEventView::Address(Some(ip)),
            );
            let open = startup::start_next(c, asked, next.0, StartEventView::PortOpen(true));
            &&& asked is None && c.port is None ==> next == (
                StartStateView::Finished,
                StartActionView::Ready(ip),
            )
            &&& asked is Some || c.port is Some ==> {
                &&& next.1 matches StartActionView::ProbePort(addr) && is_address(
                    c,
                    asked,
                    ip,
                    addr,
                )
                &&& c.healthcheck_status is None ==> open.0 == StartStateView::Finished && (
                open.1 matches StartActionView::Ready(addr) && is_address(c, asked, ip, addr))
                &&& c.healthcheck_status is Some ==> open.1 is CheckHealth
            }
        }),
{
}

/// The health check of a container asks for its path, with one slash before it, on the port of the
/// check or else on the port that the container is used on.
pub proof fn lemma_health_check(
    c: ContainerView,
    asked: Option<u16>,
    deadline: nat,
    ip: Seq<char>,
    port: u16,
    slashes: nat,
    rest: Seq<char>,
)
    requires
        c.healthcheck_status is Some,
        rest.len() == 0 || rest[0] != '/',
        c.healthcheck_path is None ==> rest.len() == 0,
        c.healthcheck_path matches Some(path) ==> path == text_laws::repeated('/', slashes) + rest,
    ensures
        startup::start_next(
            c,
            asked,
            StartStateView::AwaitPort { deadline, ip, port },
            StartEventView::PortOpen(true),
        ).1 == StartActionView::CheckHealth(
            "http://"@ + (ip + seq![':'] + number::decimal_of(
                match c.healthcheck_port {
                    Some(p) => p as nat,
                    None => port as nat,
                },
            )) + "/"@ + rest,
        ),
{
    let p = match c.healthcheck_port {
        Some(p) => p,
        None => port,
    };
    let addr = ip + seq![':'] + number::decimal_of(p as nat);
    crate::http_laws::lemma_http_url(addr, slashes, rest);
    if c.healthcheck_path is None {
        reveal_strlit("/");
        assert(text_laws::repeated('/', 1) + Seq::<char>::empty() =~= "/"@);
        crate::http_laws::lemma_http_url(addr, 1, Seq::empty());
        assert(rest =~= Seq::empty());
    }
}

/// A health check that is answered with one of the accepted codes makes the container ready where its
/// port was open; any other answer, or none, is asked for again after half a second.
pub proof fn lemma_health_answer(
    c: ContainerView,
    asked: Option<u16>,
    deadline: nat,
    ip: Seq<char>,
    port: u16,
    status: Option<u16>,
    allowed: Seq<u16>,
)
    requires
        c.healthcheck_status == Some(allowed),
    ensures
        ({
            let checked = startup::start_next(
                c,
                asked,
                StartStateView::AwaitPort { deadline, ip, port },
                StartEventView::PortOpen(true),
            );
            let next = startup::start_next(c, asked, checked.0, StartEventView::Status(status));
            &&& (exists|j: int| 0 <= j < allowed.len() && Some(#[trigger] allowed[j]) == status)
                ==> next == (
                StartStateView::Finished,
                StartActionView::Ready(ip + seq![':'] + number::decimal_of(port as nat)),
            )
            &&& !(exists|j: int| 0 <= j < allowed.len() && Some(#[trigger] allowed[j]) == status)
                ==> next.0 == (StartStateView::Pausing { deadline, running: true }) && next.1
                == StartActionView::Pause(Duration { secs: 0, nanos: 500_000_000 })
        }),
{
    if exists|j: int| 0 <= j < allowed.len() && Some(#[trigger] allowed[j]) == status {
        let j = choose|j: int| 0 <= j < allowed.len() && Some(#[trigger] allowed[j]) == status;
        assert(allowed.contains(allowed[j]));
    }
}

/// The event is one that the start waits for.
pub open spec fn is_awaited(state: StartStateView, event: StartEventView) -> bool {
    match state {
        StartStateView::AskRunning => event is Running,
        StartStateView::AskAddress => event is Address,
        StartStateView::Starting => event is Started,
        StartStateView::AwaitRunning { .. } => event is Running,
        StartStateView::AwaitAddress { .. } => event is Address,
        StartStateView::AwaitPort { .. } => event is PortOpen,
        StartStateView::AwaitHealth { .. } => event is Status,
        StartStateView::Pausing { .. } => event is Paused,
        StartStateView::Finished => false,
    }
}

/// Whatever else happens to a start than what it waits for makes it fail.
pub proof fn lemma_anything_else_fails(
    c: ContainerView,
    asked: Option<u16>,
    state: StartStateView,
    event: StartEventView,
    wait: HealthWait,
    other: HealthEvent,
)
    requires
        !is_awaited(state, event),
        !(wait is Asking && other is Ready) && !(wait is Pausing && other is Paused),
    ensures
        startup::start_next(c, asked, state, event) == (
            StartStateView::Finished,
            StartActionView::Fail(StartError::Docker),
        ),
        startup::wait_next(wait, other) == (
            HealthWait::Finished,
            HealthAction::Fail(StartError::Docker),
        ),
{
}

/// A failure of the Docker API ends a start at every point.
pub proof fn lemma_docker_failure(c: ContainerView, asked: Option<u16>, state: StartStateView)
    ensures
        startup::start_next(c, asked, state, StartEventView::DockerFailed) == (
            StartStateView::Finished,
            StartActionView::Fail(StartError::Docker),
        ),
{
}

/// A wait for a healthy container asks at once whether it is ready, then every half second, until it
/// is or its time to start is over; a failure of the Docker API ends it.
pub proof fn lemma_wait(c: ContainerView, now: Duration, later: Duration)
    requires
        c.startup_timeout.secs > 0 || c.startup_timeout.nanos > 0,
    ensures
        ({
            let deadline = (now.secs + c.startup_timeout.secs) * 1_000_000_000 + now.nanos
                + c.startup_timeout.nanos;
            let first = startup::wait_start(c, now);
            let ready = startup::wait_next(first.0, HealthEvent::Ready(true));
            let not_yet = startup::wait_next(first.0, HealthEvent::Ready(false));
            let again = startup::wait_next(not_yet.0, HealthEvent::Paused(later));
            let failed = startup::wait_next(first.0, HealthEvent::DockerFailed);
            &&& first.1 == HealthAction::CheckReady
            &&& ready == (HealthWait::Finished, HealthAction::Healthy)
            &&& not_yet.1 == HealthAction::Pause(Duration { secs: 0, nanos: 500_000_000 })
            &&& later.secs * 1_000_000_000 + later.nanos < deadline ==> again == first
            &&& later.secs * 1_000_000_000 + later.nanos >= deadline ==> again == (
                HealthWait::Finished,
                HealthAction::Fail(StartError::NotHealthy),
            )
            &&& failed == (HealthWait::Finished, HealthAction::Fail(StartError::Docker))
        }),
{
    let deadline = now.total() + c.startup_timeout.total();
    assert(deadline <= u128::MAX) by {
        assert(now.total() <= u64::MAX * 1_000_000_000 + u32::MAX);
        assert(c.startup_timeout.total() <= u64::MAX * 1_000_000_000 + u32::MAX);
    }
}

} // verus!
