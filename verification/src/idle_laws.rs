//! What holds of stops: which containers are stopped with one another, and which are stopped for
//! being idle.

use crate::config;
use crate::container;
use crate::container::ContainerView;
use crate::dependencies;
use crate::dependencies::Stack;
use crate::idle;
use crate::idle::{IdleActionView, IdleStateView};
use crate::level_laws;
use crate::levels;
use crate::router;
use crate::router_laws;
use crate::sessions::SessionsView;
use crate::time::Duration;
use vstd::prelude::*;

verus! {

// ---------------------------------------------------------------------------------------------
// How far stops go
// ---------------------------------------------------------------------------------------------

/// At most `max_depth` dependencies lead from one id to another.
pub open spec fn within(
    containers: Seq<ContainerView>,
    a: Seq<char>,
    b: Seq<char>,
    max_depth: usize,
) -> bool {
    exists|n: nat| n <= max_depth && #[trigger] level_laws::leads(containers, a, b, n)
}

proof fn lemma_own_id(containers: Seq<ContainerView>, c: ContainerView)
    requires
        router_laws::distinct_ids(containers),
        containers.contains(c),
    ensures
        levels::by_id(containers, c.id) == Some(c),
{
    let p = |x: ContainerView| x.id == c.id;
    container::lemma_first_such(containers, p);
    match levels::by_id(containers, c.id) {
        Some(x) => {
            let (i, j) = (containers.index_of(x), containers.index_of(c));
            assert(containers[i].id == containers[j].id);
            assert(i == j);
        },
        None => {
            assert(p(c));
        },
    }
}

proof fn lemma_one_more(
    containers: Seq<ContainerView>,
    a: Seq<char>,
    c: ContainerView,
    d: ContainerView,
    n: nat,
)
    requires
        router_laws::distinct_ids(containers),
        containers.contains(c),
        level_laws::leads(containers, a, c.id, n),
        c.dependencies(containers).contains(d),
    ensures
        level_laws::leads(containers, a, d.id, n + 1),
{
    lemma_own_id(containers, c);
    let deps = c.dependencies(containers);
    assert(deps[deps.index_of(d)].id == d.id);
    assert(level_laws::step(containers, c.id, d.id));
}

proof fn lemma_collected_within(
    a: Seq<char>,
    stack: Stack,
    out: Seq<ContainerView>,
    containers: Seq<ContainerView>,
    max_depth: usize,
)
    requires
        router_laws::distinct_ids(containers),
        forall|k: int| 0 <= k < out.len() ==> within(containers, a, (#[trigger] out[k]).id, max_depth),
        forall|k: int|
            0 <= k < stack.len() ==> containers.contains((#[trigger] stack[k]).0)
                && level_laws::leads(containers, a, stack[k].0.id, stack[k].1 as nat),
    ensures
        ({
            let r = dependencies::collected(stack, out, containers, max_depth);
            forall|k: int| 0 <= k < r.len() ==> within(containers, a, (#[trigger] r[k]).id, max_depth)
        }),
    decreases dependencies::unseen(containers, out).len(), stack.len(),
{
    if stack.len() > 0 {
        let (c, depth) = stack.last();
        let rest = stack.drop_last();
        assert(stack[stack.len() - 1] == (c, depth));
        assert forall|k: int| 0 <= k < rest.len() implies containers.contains(
            (#[trigger] rest[k]).0,
        ) && level_laws::leads(containers, a, rest[k].0.id, rest[k].1 as nat) by {
            assert(rest[k] == stack[k]);
        }
        if depth >= max_depth {
            lemma_collected_within(a, rest, out, containers, max_depth);
        } else {
            let deps = c.dependencies(containers);
            let found = dependencies::fresh(out, deps);
            let piled = rest + dependencies::at_depth(found, (depth + 1) as usize);
            let more = dependencies::with_all(out, deps);
            dependencies::lemma_unseen(containers, out, c);
            dependencies::lemma_with_all(out, deps);
            dependencies::lemma_dependencies_managed(c, containers);
            assert(out == more.subrange(0, out.len() as int));
            assert forall|k: int| out.len() <= k < more.len() implies containers.contains(
                #[trigger] more[k],
            ) && level_laws::leads(containers, a, more[k].id, depth as nat + 1) by {
                assert(deps.contains(more[k]));
                lemma_one_more(containers, a, c, more[k], depth as nat);
                assert(containers.contains(deps[deps.index_of(more[k])]));
            }
            assert forall|k: int| 0 <= k < more.len() implies within(
                containers,
                a,
                (#[trigger] more[k]).id,
                max_depth,
            ) by {
                if k < out.len() {
                    assert(more[k] == out[k]);
                }
            }
            assert forall|k: int| 0 <= k < piled.len() implies containers.contains(
                (#[trigger] piled[k]).0,
            ) && level_laws::leads(containers, a, piled[k].0.id, piled[k].1 as nat) by {
                if k < rest.len() {
                    assert(piled[k] == rest[k]);
                } else {
                    let x = more[out.len() + (k - rest.len())];
                    assert(found[k - rest.len()] == x);
                    assert(piled[k] == (x, (depth + 1) as usize));
                }
            }
            if found.len() == 0 {
                assert(piled =~= rest);
            }
            lemma_collected_within(a, piled, more, containers, max_depth);
        }
    }
}

/// Only what a container leads to over at most `max_depth` dependencies is stopped with it.
pub proof fn lemma_stops_within(
    target: ContainerView,
    containers: Seq<ContainerView>,
    max_depth: usize,
    k: int,
)
    requires
        router_laws::distinct_ids(containers),
        containers.contains(target),
        0 <= k < dependencies::stop_set(target, containers, max_depth).len(),
    ensures
        within(
            containers,
            target.id,
            dependencies::stop_set(target, containers, max_depth)[k].id,
            max_depth,
        ),
{
    let out = seq![target];
    let stack: Stack = seq![(target, 0usize)];
    assert(level_laws::leads(containers, target.id, target.id, 0));
    lemma_collected_within(target.id, stack, out, containers, max_depth);
}

/// At most `depth` dependencies lead from one id to another.
spec fn reached(containers: Seq<ContainerView>, a: Seq<char>, b: Seq<char>, depth: nat) -> bool {
    exists|n: nat| n <= depth && #[trigger] level_laws::leads(containers, a, b, n)
}

/// What is known on the way along a line of dependencies: `c` alone is `depth` dependencies from
/// `a`, and `out` holds exactly what is as far or nearer.
spec fn along(
    containers: Seq<ContainerView>,
    a: Seq<char>,
    c: ContainerView,
    depth: nat,
    out: Seq<ContainerView>,
) -> bool {
    &&& containers.contains(c)
    &&& forall|id: Seq<char>| #[trigger] level_laws::leads(containers, a, id, depth) <==> id == c.id
    &&& forall|id: Seq<char>, n: nat|
        n <= depth && #[trigger] level_laws::leads(containers, a, id, n) ==> router::has_id(out, id)
    &&& forall|k: int|
        0 <= k < out.len() ==> reached(containers, a, (#[trigger] out[k]).id, depth)
}

/// Where the line ends or leads back, everything is there.
proof fn lemma_line_ends(
    containers: Seq<ContainerView>,
    a: Seq<char>,
    c: ContainerView,
    depth: nat,
    out: Seq<ContainerView>,
    id: Seq<char>,
    n: nat,
)
    requires
        along(containers, a, c, depth, out),
        forall|b: Seq<char>| #[trigger]
            level_laws::step(containers, c.id, b) ==> router::has_id(out, b),
        level_laws::leads(containers, a, id, n),
    ensures
        router::has_id(out, id),
    decreases n,
{
    if n > depth {
        let m = choose|m: Seq<char>|
            level_laws::leads(containers, a, m, (n - 1) as nat) && #[trigger] level_laws::step(
                containers,
                m,
                id,
            );
        lemma_line_ends(containers, a, c, depth, out, m, (n - 1) as nat);
        let k = choose|k: int| 0 <= k < out.len() && (#[trigger] out[k]).id == m;
        assert(reached(containers, a, out[k].id, depth));
        let j = choose|j: nat|
            j <= depth && #[trigger] level_laws::leads(containers, a, out[k].id, j);
        if j < depth {
            assert(level_laws::leads(containers, a, id, j + 1));
        } else {
            assert(m == c.id);
        }
    }
}

proof fn lemma_line_collected(
    containers: Seq<ContainerView>,
    a: Seq<char>,
    c: ContainerView,
    depth: usize,
    out: Seq<ContainerView>,
    max_depth: usize,
    id: Seq<char>,
    n: nat,
)
    requires
        router_laws::distinct_ids(containers),
        forall|i: int|
            0 <= i < containers.len() ==> (#[trigger] containers[i]).dependencies(containers).len()
                <= 1,
        along(containers, a, c, depth as nat, out),
        n <= max_depth,
        level_laws::leads(containers, a, id, n),
    ensures
        router::has_id(
            dependencies::collected(seq![(c, depth)], out, containers, max_depth),
            id,
        ),
    decreases dependencies::unseen(containers, out).len(),
{
    let stack: Stack = seq![(c, depth)];
    assert(stack.drop_last() =~= Seq::<(ContainerView, usize)>::empty());
    assert(stack.last() == (c, depth));
    if depth >= max_depth {
        assert(dependencies::collected(stack.drop_last(), out, containers, max_depth) == out);
    } else {
        let deps = c.dependencies(containers);
        let found = dependencies::fresh(out, deps);
        let piled = stack.drop_last() + dependencies::at_depth(found, (depth + 1) as usize);
        let more = dependencies::with_all(out, deps);
        dependencies::lemma_unseen(containers, out, c);
        dependencies::lemma_with_all(out, deps);
        dependencies::lemma_dependencies_managed(c, containers);
        lemma_own_id(containers, c);
        assert(containers[containers.index_of(c)].dependencies(containers).len() <= 1);
        if found.len() == 0 {
            assert(piled =~= Seq::<(ContainerView, usize)>::empty());
            assert(more == out);
            assert(dependencies::collected(piled, more, containers, max_depth) == out);
            assert forall|b: Seq<char>| #[trigger]
                level_laws::step(containers, c.id, b) implies router::has_id(out, b) by {
                assert(router::has_id(more, b));
            }
            lemma_line_ends(containers, a, c, depth as nat, out, id, n);
        } else {
            let x = more[out.len() as int];
            assert(deps.contains(x));
            assert(deps[0] == x);
            assert(deps =~= seq![x]);
            assert(more =~= out.push(x)) by {
                assert(deps.drop_last() =~= Seq::<ContainerView>::empty());
                assert(dependencies::with_all(out, deps.drop_last()) == out);
            }
            assert(found =~= seq![x]);
            assert(piled =~= seq![(x, (depth + 1) as usize)]);
            assert(containers.contains(deps[0]));
            assert(along(containers, a, x, (depth + 1) as nat, more)) by {
                let next = (depth + 1) as nat;
                lemma_one_more(containers, a, c, x, depth as nat);
                assert forall|b: Seq<char>| #[trigger]
                    level_laws::leads(containers, a, b, next) implies b == x.id by {
                    let m = choose|m: Seq<char>|
                        level_laws::leads(containers, a, m, (next - 1) as nat)
                            && #[trigger] level_laws::step(containers, m, b);
                    assert(m == c.id);
                    let k = choose|k: int| 0 <= k < deps.len() && (#[trigger] deps[k]).id == b;
                    assert(deps[k] == x);
                }
                assert forall|b: Seq<char>, j: nat|
                    j <= next && #[trigger] level_laws::leads(
                        containers,
                        a,
                        b,
                        j,
                    ) implies router::has_id(more, b) by {
                    if j == next {
                        assert(more[out.len() as int].id == b);
                    } else {
                        assert(router::has_id(out, b));
                    }
                }
                assert forall|k: int| 0 <= k < more.len() implies reached(
                    containers,
                    a,
                    (#[trigger] more[k]).id,
                    next,
                ) by {
                    if k < out.len() {
                        assert(more[k] == out[k]);
                        let j = choose|j: nat|
                            j <= depth && #[trigger] level_laws::leads(
                                containers,
                                a,
                                out[k].id,
                                j,
                            );
                        assert(level_laws::leads(containers, a, more[k].id, j));
                    } else {
                        assert(level_laws::leads(containers, a, more[k].id, next));
                    }
                }
            }
            lemma_line_collected(
                containers,
                a,
                x,
                (depth + 1) as usize,
                more,
                max_depth,
                id,
                n,
            );
        }
    }
}

/// Where every container depends on one other at most, everything that a container leads to over up
/// to `max_depth` dependencies is stopped with it.
pub proof fn lemma_line_is_stopped(
    target: ContainerView,
    containers: Seq<ContainerView>,
    max_depth: usize,
    id: Seq<char>,
    n: nat,
)
    requires
        router_laws::distinct_ids(containers),
        containers.contains(target),
        forall|i: int|
            0 <= i < containers.len() ==> (#[trigger] containers[i]).dependencies(containers).len()
                <= 1,
        n <= max_depth,
        level_laws::leads(containers, target.id, id, n),
    ensures
        router::has_id(dependencies::stop_set(target, containers, max_depth), id),
{
    let out = seq![target];
    assert(out[0].id == target.id);
    assert(router::has_id(out, target.id));
    assert(level_laws::leads(containers, target.id, target.id, 0));
    assert(along(containers, target.id, target, 0, out));
    lemma_line_collected(containers, target.id, target, 0, out, max_depth, id, n);
}

// ---------------------------------------------------------------------------------------------
// What is stopped for being idle
// ---------------------------------------------------------------------------------------------

/// `t` is stopped for the expired container `c` itself: it is that container, or a member of its
/// group without a session that goes on.
pub open spec fn goes_with(
    t: ContainerView,
    c: ContainerView,
    s: SessionsView,
    now: Duration,
) -> bool {
    t == c || (c.group is Some && t.group == c.group && t.id != c.id && (s.session(t.id) matches Some(
        state,
    ) ==> now.secs * 1_000_000_000 + now.nanos > (state.last_access.secs + state.duration.secs)
        * 1_000_000_000 + state.last_access.nanos + state.duration.nanos))
}

proof fn lemma_goes_with(
    t: ContainerView,
    c: ContainerView,
    containers: Seq<ContainerView>,
    s: SessionsView,
    now: Duration,
)
    requires
        containers.contains(c),
    ensures
        idle::expired_with(c, containers, s, now).contains(t) <==> containers.contains(t)
            && goes_with(t, c, s, now),
{
    let v = idle::expired_with(c, containers, s, now);
    match c.group {
        Some(group) => {
            let p = idle::idle_member(group, c.id, s, now);
            let f = containers.filter(p);
            if v.contains(t) {
                let k = v.index_of(t);
                if k > 0 {
                    assert(f[k - 1] == t);
                    assert(f.contains(t));
                    containers.lemma_filter_contains_rev(p, t);
                    containers.lemma_filter_pred(p, k - 1);
                }
            }
            if containers.contains(t) && goes_with(t, c, s, now) {
                if t == c {
                    assert(v[0] == t);
                } else {
                    containers.lemma_filter_contains(p, containers.index_of(t));
                    assert(v[f.index_of(t) + 1] == t);
                }
            }
        },
        None => {
            if v.contains(t) {
                assert(v[v.index_of(t)] == c);
            }
            if t == c {
                assert(v[0] == t);
            }
        },
    }
}

proof fn lemma_stop_all_ids(
    targets: Seq<ContainerView>,
    containers: Seq<ContainerView>,
    id: Seq<char>,
)
    ensures
        router::has_id(idle::stop_all(targets, containers), id) <==> exists|k: int|
            0 <= k < targets.len() && router::has_id(
                dependencies::stop_set(#[trigger] targets[k], containers, 10),
                id,
            ),
    decreases targets.len(),
{
    if targets.len() > 0 {
        let init = targets.drop_last();
        lemma_stop_all_ids(init, containers, id);
        let before = idle::stop_all(init, containers);
        let chain = dependencies::stop_set(targets.last(), containers, 10);
        dependencies::lemma_with_all(before, chain);
        assert(targets[targets.len() - 1] == targets.last());
        assert(router::has_id(idle::stop_all(targets, containers), id) <==> router::has_id(
            before,
            id,
        ) || router::has_id(chain, id));
        if exists|k: int|
            0 <= k < init.len() && router::has_id(
                dependencies::stop_set(#[trigger] init[k], containers, 10),
                id,
            ) {
            let k = choose|k: int|
                0 <= k < init.len() && router::has_id(
                    dependencies::stop_set(#[trigger] init[k], containers, 10),
                    id,
                );
            assert(targets[k] == init[k]);
        }
        if exists|k: int|
            0 <= k < targets.len() && router::has_id(
                dependencies::stop_set(#[trigger] targets[k], containers, 10),
                id,
            ) {
            let k = choose|k: int|
                0 <= k < targets.len() && router::has_id(
                    dependencies::stop_set(#[trigger] targets[k], containers, 10),
                    id,
                );
            if k < init.len() {
                assert(targets[k] == init[k]);
            }
        }
    }
}

/// What is stopped for an expired container is exactly what is stopped with it or with a member of
/// its group whose session does not go on, up to ten dependencies away, as far as it is not always
/// on and nothing is connected to it.
pub proof fn lemma_idle_set(
    id: Seq<char>,
    containers: Seq<ContainerView>,
    s: SessionsView,
    now: Duration,
    c: ContainerView,
    x: ContainerView,
)
    requires
        router_laws::distinct_ids(containers),
        containers.contains(c),
        c.id == id,
        !c.always_on,
        containers.contains(x),
    ensures
        idle::idle_set(id, containers, s, now).contains(x.id) <==> !x.always_on && s.connections(
            x.id,
        ) == 0 && exists|t: ContainerView|
            containers.contains(t) && #[trigger] goes_with(t, c, s, now) && router::has_id(
                dependencies::stop_set(t, containers, 10),
                x.id,
            ),
{
    lemma_own_id(containers, c);
    let targets = idle::expired_with(c, containers, s, now);
    let all = idle::stop_all(targets, containers);
    let p = idle::stoppable(s);
    let f = all.filter(p);
    let ids = idle::idle_set(id, containers, s, now);
    assert(ids == f.map_values(|y: ContainerView| y.id));
    lemma_stop_all_ids(targets, containers, x.id);
    assert forall|k: int| 0 <= k < targets.len() implies containers.contains(#[trigger] targets[k]) by {
        assert(targets.contains(targets[k]));
        lemma_goes_with(targets[k], c, containers, s, now);
    }
    idle::lemma_stop_all(targets, containers);
    if ids.contains(x.id) {
        let k = ids.index_of(x.id);
        let y = f[k];
        assert(y.id == x.id);
        assert(f.contains(y));
        all.lemma_filter_contains_rev(p, y);
        all.lemma_filter_pred(p, k);
        let q = all.index_of(y);
        assert(all[q].id == x.id);
        assert(containers.contains(all[q]));
        let (i, j) = (containers.index_of(y), containers.index_of(x));
        assert(containers[i].id == containers[j].id);
        assert(i == j);
        assert(router::has_id(all, x.id));
        let m = choose|m: int|
            0 <= m < targets.len() && router::has_id(
                dependencies::stop_set(#[trigger] targets[m], containers, 10),
                x.id,
            );
        assert(targets.contains(targets[m]));
        lemma_goes_with(targets[m], c, containers, s, now);
        assert(goes_with(targets[m], c, s, now));
    }
    if !x.always_on && s.connections(x.id) == 0 && exists|t: ContainerView|
        containers.contains(t) && #[trigger] goes_with(t, c, s, now) && router::has_id(
            dependencies::stop_set(t, containers, 10),
            x.id,
        ) {
        let t = choose|t: ContainerView|
            containers.contains(t) && #[trigger] goes_with(t, c, s, now) && router::has_id(
                dependencies::stop_set(t, containers, 10),
                x.id,
            );
        lemma_goes_with(t, c, containers, s, now);
        let m = targets.index_of(t);
        assert(targets[m] == t);
        assert(router::has_id(all, x.id));
        let k = choose|k: int| 0 <= k < all.len() && (#[trigger] all[k]).id == x.id;
        assert(containers.contains(all[k]));
        let (i, j) = (containers.index_of(all[k]), containers.index_of(x));
        assert(containers[i].id == containers[j].id);
        assert(i == j);
        all.lemma_filter_contains(p, k);
        let q = f.index_of(all[k]);
        assert(ids[q] == x.id);
    }
}

/// Nothing but managed containers is stopped for a managed container. A container that is not
/// managed is stopped alone, and for one that is always on nothing is stopped.
pub proof fn lemma_idle_set_known(
    id: Seq<char>,
    containers: Seq<ContainerView>,
    s: SessionsView,
    now: Duration,
    i: int,
    x: Seq<char>,
)
    ensures
        router::has_id(containers, id) && idle::idle_set(id, containers, s, now).contains(x)
            ==> router::has_id(containers, x),
        !router::has_id(containers, id) ==> idle::idle_set(id, containers, s, now) == seq![id],
        0 <= i < containers.len() && containers[i].id == id && containers[i].always_on
            && router_laws::distinct_ids(containers) ==> idle::idle_set(id, containers, s, now).len()
            == 0,
{
    let p = |y: ContainerView| y.id == id;
    container::lemma_first_such(containers, p);
    if router::has_id(containers, id) {
        let k = choose|k: int| 0 <= k < containers.len() && (#[trigger] containers[k]).id == id;
        assert(containers.contains(containers[k]));
        assert(p(containers[k]));
        if idle::idle_set(id, containers, s, now).contains(x) {
            let c = idle::lemma_stopped(id, containers, s, now, x);
            assert(containers[containers.index_of(c)].id == x);
        }
    } else {
        match levels::by_id(containers, id) {
            Some(c) => {
                assert(containers[containers.index_of(c)].id == id);
            },
            None => {},
        }
    }
    if 0 <= i < containers.len() && containers[i].id == id && router_laws::distinct_ids(containers) {
        lemma_own_id(containers, containers[i]);
    }
}

/// The expired container is the first that is stopped.
pub proof fn lemma_expired_first(
    containers: Seq<ContainerView>,
    s: SessionsView,
    now: Duration,
    c: ContainerView,
)
    requires
        router_laws::distinct_ids(containers),
        containers.contains(c),
        !c.always_on,
        s.connections(c.id) == 0,
    ensures
        idle::idle_set(c.id, containers, s, now).len() > 0,
        idle::idle_set(c.id, containers, s, now)[0] == c.id,
{
    lemma_own_id(containers, c);
    let targets = idle::expired_with(c, containers, s, now);
    let all = idle::stop_all(targets, containers);
    let p = idle::stoppable(s);
    lemma_first_stop(targets, containers);
    assert(all[0] == c);
    let rest = all.skip(1);
    assert(all =~= seq![c] + rest);
    rest.lemma_filter_prepend(c, p);
    assert(all.filter(p)[0] == c);
}

proof fn lemma_first_stop(targets: Seq<ContainerView>, containers: Seq<ContainerView>)
    requires
        targets.len() > 0,
    ensures
        idle::stop_all(targets, containers).len() > 0,
        idle::stop_all(targets, containers)[0] == targets[0],
    decreases targets.len(),
{
    let init = targets.drop_last();
    let before = idle::stop_all(init, containers);
    let chain = dependencies::stop_set(targets.last(), containers, config::MAX_DEPENDENCY_DEPTH);
    let after = idle::stop_all(targets, containers);
    dependencies::lemma_stop_set(targets.last(), containers, config::MAX_DEPENDENCY_DEPTH);
    dependencies::lemma_with_all(before, chain);
    if init.len() > 0 {
        lemma_first_stop(init, containers);
        assert(before == after.subrange(0, before.len() as int));
        assert(after[0] == after.subrange(0, before.len() as int)[0]);
    } else {
        lemma_with_all_first(chain);
    }
}

proof fn lemma_with_all_first(v: Seq<ContainerView>)
    requires
        v.len() > 0,
    ensures
        dependencies::with_all(Seq::empty(), v).len() > 0,
        dependencies::with_all(Seq::empty(), v)[0] == v[0],
    decreases v.len(),
{
    if v.len() > 1 {
        lemma_with_all_first(v.drop_last());
    } else {
        assert(v.drop_last() =~= Seq::<ContainerView>::empty());
        assert(dependencies::with_all(Seq::empty(), v.drop_last()) =~= Seq::<ContainerView>::empty());
    }
}

/// A round without expired sessions is over at once, and one that is over stays so; neither touches
/// a session.
pub proof fn lemma_round_over(
    containers: Seq<ContainerView>,
    s: SessionsView,
    now: Duration,
    event: idle::IdleEvent,
)
    ensures
        ({
            let course = idle::deal_with(Seq::empty(), containers, s, now);
            &&& course.state == IdleStateView::Done
            &&& course.action == IdleActionView::Finish
            &&& course.sessions == s
        }),
        ({
            let course = idle::idle_next(IdleStateView::Done, event, containers, s, now);
            &&& course.state == IdleStateView::Done
            &&& course.action == IdleActionView::Finish
            &&& course.sessions == s
        }),
{
}

} // verus!
