//! Following compose dependencies: what is stopped with a container, and what is started before it.

use crate::container;
use crate::container::{ContainerView, DependencyView, ManagedContainer};
use crate::router;
use crate::router_laws;
use crate::sequences;
use vstd::prelude::*;

verus! {

// ---------------------------------------------------------------------------------------------
// Stopping
// ---------------------------------------------------------------------------------------------

/// `out` with those of `deps` whose ids are not there yet.
pub open spec fn with_all(out: Seq<ContainerView>, deps: Seq<ContainerView>) -> Seq<ContainerView>
    decreases deps.len(),
{
    if deps.len() == 0 {
        out
    } else {
        router::with_container(with_all(out, deps.drop_last()), deps.last())
    }
}

/// Those of `deps` whose ids are not in `out`, the first of each id.
pub open spec fn fresh(out: Seq<ContainerView>, deps: Seq<ContainerView>) -> Seq<ContainerView> {
    with_all(out, deps).skip(out.len() as int)
}

/// The containers that are not in `out`, by id.
pub open spec fn unseen(containers: Seq<ContainerView>, out: Seq<ContainerView>) -> Seq<
    ContainerView,
> {
    containers.filter(|c: ContainerView| !router::has_id(out, c.id))
}

/// Containers with the depth that they were found at.
pub type Stack = Seq<(ContainerView, usize)>;

/// `found` with a depth.
pub open spec fn at_depth(found: Seq<ContainerView>, depth: usize) -> Stack {
    found.map_values(|c: ContainerView| (c, depth))
}

/// What is collected when the containers on the stack are followed, the topmost first, to
/// `max_depth`.
pub open spec fn collected(
    stack: Stack,
    out: Seq<ContainerView>,
    containers: Seq<ContainerView>,
    max_depth: usize,
) -> Seq<ContainerView>
    decreases unseen(containers, out).len(), stack.len(),
{
    if stack.len() == 0 {
        out
    } else {
        let (c, depth) = stack.last();
        if depth >= max_depth {
            collected(stack.drop_last(), out, containers, max_depth)
        } else {
            let deps = c.dependencies(containers);
            proof {
                lemma_unseen(containers, out, c);
            }
            collected(
                stack.drop_last() + at_depth(fresh(out, deps), (depth + 1) as usize),
                with_all(out, deps),
                containers,
                max_depth,
            )
        }
    }
}

/// What is stopped with `target`: itself, then the managed containers that it depends on, and what
/// those depend on, to `max_depth`.
pub open spec fn stop_set(
    target: ContainerView,
    containers: Seq<ContainerView>,
    max_depth: usize,
) -> Seq<ContainerView> {
    collected(seq![(target, 0usize)], seq![target], containers, max_depth)
}

/// A dependency is one of the containers.
pub proof fn lemma_dependencies_managed(c: ContainerView, containers: Seq<ContainerView>)
    ensures
        forall|k: int|
            0 <= k < c.dependencies(containers).len() ==> containers.contains(
                #[trigger] c.dependencies(containers)[k],
            ),
{
    let deps = c.dependencies(containers);
    let f = |d: DependencyView| c.dependency(d.service, containers);
    assert forall|k: int| 0 <= k < deps.len() implies containers.contains(#[trigger] deps[k]) by {
        sequences::lemma_filter_map_contains(c.depends_on, f, deps[k]);
        assert(deps.contains(deps[k]));
        let i = choose|i: int|
            0 <= i < c.depends_on.len() && f(#[trigger] c.depends_on[i]) == Some(deps[k]);
        container::lemma_first_such(
            containers,
            |x: ContainerView| c.is_dependency(c.depends_on[i].service, x),
        );
    }
}

/// Adding keeps what is there, keeps ids distinct, and makes every added id present.
pub proof fn lemma_with_all(out: Seq<ContainerView>, deps: Seq<ContainerView>)
    ensures
        out.is_prefix_of(with_all(out, deps)),
        router_laws::distinct_ids(out) ==> router_laws::distinct_ids(with_all(out, deps)),
        forall|id: Seq<char>| #[trigger]
            router::has_id(with_all(out, deps), id) <==> router::has_id(out, id) || router::has_id(
                deps,
                id,
            ),
        forall|k: int|
            out.len() <= k < with_all(out, deps).len() ==> deps.contains(
                #[trigger] with_all(out, deps)[k],
            ) && !router::has_id(out, with_all(out, deps)[k].id),
    decreases deps.len(),
{
    if deps.len() > 0 {
        let init = deps.drop_last();
        let d = deps.last();
        lemma_with_all(out, init);
        let before = with_all(out, init);
        let after = with_all(out, deps);
        assert forall|id: Seq<char>| #[trigger] router::has_id(after, id) <==> router::has_id(
            out,
            id,
        ) || router::has_id(deps, id) by {
            assert(router::has_id(before, id) <==> router::has_id(out, id) || router::has_id(
                init,
                id,
            ));
            if router::has_id(before, id) {
                let k = choose|k: int| 0 <= k < before.len() && (#[trigger] before[k]).id == id;
                assert(after[k].id == id);
            }
            if router::has_id(init, id) {
                let k = choose|k: int| 0 <= k < init.len() && (#[trigger] init[k]).id == id;
                assert(deps[k].id == id);
            }
            if router::has_id(deps, id) {
                let k = choose|k: int| 0 <= k < deps.len() && (#[trigger] deps[k]).id == id;
                if k < init.len() {
                    assert(init[k].id == id);
                } else if router::has_id(before, d.id) {
                    let m = choose|m: int| 0 <= m < before.len() && (#[trigger] before[m]).id == d.id;
                    assert(after[m].id == id);
                } else {
                    assert(after[before.len() as int].id == id);
                }
            }
            if router::has_id(after, id) {
                let k = choose|k: int| 0 <= k < after.len() && (#[trigger] after[k]).id == id;
                if k < before.len() {
                    assert(before[k].id == id);
                } else {
                    assert(deps[deps.len() - 1].id == id);
                }
            }
        }
        assert(out == after.subrange(0, out.len() as int)) by {
            assert(out == before.subrange(0, out.len() as int));
        }
        if router_laws::distinct_ids(out) {
            assert forall|i: int, j: int| 0 <= i < j < after.len() implies (#[trigger] after[i]).id
                != (#[trigger] after[j]).id by {
                if j < before.len() {
                    assert(before[i].id != before[j].id);
                } else {
                    assert(before[i].id != d.id);
                }
            }
        }
        assert forall|k: int| out.len() <= k < after.len() implies deps.contains(
            #[trigger] after[k],
        ) && !router::has_id(out, after[k].id) by {
            if k < before.len() {
                assert(after[k] == before[k]);
                assert(init.contains(before[k]));
                assert(deps[init.index_of(before[k])] == before[k]);
            } else {
                assert(deps[deps.len() - 1] == d);
                if router::has_id(out, d.id) {
                    assert(router::has_id(before, d.id));
                }
            }
        }
    } else {
        assert(out == out.subrange(0, out.len() as int));
    }
}

/// Following a container either finds nothing or leaves fewer containers unseen.
pub proof fn lemma_unseen(containers: Seq<ContainerView>, out: Seq<ContainerView>, c: ContainerView)
    ensures
        fresh(out, c.dependencies(containers)).len() == 0 ==> with_all(
            out,
            c.dependencies(containers),
        ) == out,
        fresh(out, c.dependencies(containers)).len() > 0 ==> unseen(
            containers,
            with_all(out, c.dependencies(containers)),
        ).len() < unseen(containers, out).len(),
{
    let deps = c.dependencies(containers);
    let after = with_all(out, deps);
    lemma_with_all(out, deps);
    lemma_dependencies_managed(c, containers);
    if fresh(out, deps).len() == 0 {
        assert(after =~= out);
    } else {
        let d = after[out.len() as int];
        assert(deps.contains(d));
        let k = deps.index_of(d);
        assert(containers.contains(deps[k]));
        let i = containers.index_of(d);
        assert(router::has_id(after, d.id));
        lemma_fewer(
            containers,
            |x: ContainerView| !router::has_id(out, x.id),
            |x: ContainerView| !router::has_id(after, x.id),
            i,
        );
    }
}

/// A stronger property holds of fewer elements, where it fails at a place where the other holds.
proof fn lemma_fewer(
    s: Seq<ContainerView>,
    p: spec_fn(ContainerView) -> bool,
    q: spec_fn(ContainerView) -> bool,
    i: int,
)
    requires
        forall|x: ContainerView| #[trigger] q(x) ==> p(x),
        0 <= i < s.len() ==> p(s[i]) && !q(s[i]),
    ensures
        s.filter(q).len() <= s.filter(p).len(),
        0 <= i < s.len() ==> s.filter(q).len() < s.filter(p).len(),
    decreases s.len(),
{
    reveal(Seq::filter);
    if s.len() > 0 {
        if i == s.len() - 1 {
            lemma_fewer(s.drop_last(), p, q, -1);
        } else {
            lemma_fewer(s.drop_last(), p, q, i);
        }
        assert(q(s.last()) ==> p(s.last()));
    }
}

/// Adds the dependencies whose ids are not there yet to what is collected and to the stack.
fn push_fresh(
    out: &mut Vec<ManagedContainer>,
    stack: &mut Vec<(ManagedContainer, usize)>,
    deps: &Vec<ManagedContainer>,
    depth: usize,
)
    ensures
        final(out).deep_view() == with_all(old(out).deep_view(), deps.deep_view()),
        final(stack).deep_view() == old(stack).deep_view() + at_depth(
            fresh(old(out).deep_view(), deps.deep_view()),
            depth,
        ),
{
    let ghost start = out.deep_view();
    let ghost base = stack.deep_view();
    let ghost all = deps.deep_view();
    let mut i: usize = 0;
    proof {
        assert(all.take(0) == Seq::<ContainerView>::empty());
        assert(at_depth(fresh(start, all.take(0)), depth) == Stack::empty());
        assert(base + at_depth(fresh(start, all.take(0)), depth) == base);
    }
    while i < deps.len()
        invariant
            i <= deps@.len(),
            all == deps.deep_view(),
            out.deep_view() == with_all(start, all.take(i as int)),
            stack.deep_view() == base + at_depth(fresh(start, all.take(i as int)), depth),
        decreases deps.len() - i,
    {
        let ghost before = out.deep_view();
        let ghost piled = stack.deep_view();
        let ghost d = deps@[i as int]@;
        proof {
            let next = all.take(i + 1);
            assert(next.drop_last() == all.take(i as int));
            assert(next.last() == d);
            lemma_with_all(start, all.take(i as int));
        }
        if !router::contains_id(out, deps[i].id.as_str()) {
            out.push(deps[i].clone());
            stack.push((deps[i].clone(), depth));
            proof {
                assert(out.deep_view() == before.push(d));
                assert(stack.deep_view() == piled.push((d, depth)));
                assert(fresh(start, all.take(i + 1)) == fresh(start, all.take(i as int)).push(d));
                assert(at_depth(fresh(start, all.take(i + 1)), depth) == at_depth(
                    fresh(start, all.take(i as int)),
                    depth,
                ).push((d, depth)));
                assert(base + at_depth(fresh(start, all.take(i + 1)), depth) == (base + at_depth(
                    fresh(start, all.take(i as int)),
                    depth,
                )).push((d, depth)));
            }
        }
        i = i + 1;
    }
    assert(all.take(all.len() as int) == all);
}

/// Collects what is stopped with `target`: itself and the managed containers that it depends on.
pub fn stop_chain(
    target: &ManagedContainer,
    containers: &[ManagedContainer],
    max_depth: usize,
) -> (r: Vec<ManagedContainer>)
    ensures
        r.deep_view() == stop_set(target@, containers.deep_view(), max_depth),
{
    let ghost all = containers.deep_view();
    let mut out: Vec<ManagedContainer> = Vec::new();
    out.push(target.clone());
    let mut stack: Vec<(ManagedContainer, usize)> = Vec::new();
    stack.push((target.clone(), 0));
    proof {
        assert(out.deep_view() == seq![target@]);
        assert(stack.deep_view() == seq![(target@, 0usize)]);
    }
    while stack.len() > 0
        invariant
            all == containers.deep_view(),
            collected(stack.deep_view(), out.deep_view(), all, max_depth) == stop_set(
                target@,
                all,
                max_depth,
            ),
        decreases unseen(all, out.deep_view()).len(), stack.deep_view().len(),
    {
        let ghost piled = stack.deep_view();
        let ghost before = out.deep_view();
        match stack.pop() {
            Some((c, depth)) => {
                proof {
                    assert(piled.last() == (c@, depth));
                    assert(stack.deep_view() == piled.drop_last());
                }
                if depth < max_depth {
                    let deps: Vec<ManagedContainer> = c.resolve_dependencies(containers);
                    push_fresh(&mut out, &mut stack, &deps, depth + 1);
                    proof {
                        lemma_unseen(all, before, c@);
                        if fresh(before, deps.deep_view()).len() == 0 {
                            assert(stack.deep_view() == piled.drop_last());
                        }
                    }
                }
            },
            None => {},
        }
    }
    out
}

// ---------------------------------------------------------------------------------------------
// Laws of stopping
// ---------------------------------------------------------------------------------------------

/// `d` is one of the containers that some `c` before place `k` of `s` depends on.
pub open spec fn needed_before(
    s: Seq<ContainerView>,
    k: int,
    d: ContainerView,
    containers: Seq<ContainerView>,
) -> bool {
    exists|j: int|
        0 <= j < k && (#[trigger] s[j]).dependencies(containers).contains(d)
}

/// What is collected begins with what was collected before, has every id once, and beyond that
/// holds only managed containers that an earlier one depends on.
proof fn lemma_collected(
    stack: Stack,
    out: Seq<ContainerView>,
    containers: Seq<ContainerView>,
    max_depth: usize,
)
    requires
        router_laws::distinct_ids(out),
        forall|k: int| 0 <= k < stack.len() ==> out.contains((#[trigger] stack[k]).0),
    ensures
        out.is_prefix_of(collected(stack, out, containers, max_depth)),
        router_laws::distinct_ids(collected(stack, out, containers, max_depth)),
        forall|k: int|
            out.len() <= k < collected(stack, out, containers, max_depth).len()
                ==> containers.contains(
                #[trigger] collected(stack, out, containers, max_depth)[k],
            ) && needed_before(
                collected(stack, out, containers, max_depth),
                k,
                collected(stack, out, containers, max_depth)[k],
                containers,
            ),
    decreases unseen(containers, out).len(), stack.len(),
{
    let r = collected(stack, out, containers, max_depth);
    if stack.len() == 0 {
        assert(out == out.subrange(0, out.len() as int));
    } else {
        let (c, depth) = stack.last();
        assert(out.contains(stack[stack.len() - 1].0));
        if depth >= max_depth {
            assert forall|k: int| 0 <= k < stack.drop_last().len() implies out.contains(
                (#[trigger] stack.drop_last()[k]).0,
            ) by {
                assert(out.contains(stack[k].0));
            }
            lemma_collected(stack.drop_last(), out, containers, max_depth);
        } else {
            let deps = c.dependencies(containers);
            let found = fresh(out, deps);
            let piled = stack.drop_last() + at_depth(found, (depth + 1) as usize);
            let more = with_all(out, deps);
            lemma_unseen(containers, out, c);
            lemma_with_all(out, deps);
            lemma_dependencies_managed(c, containers);
            assert forall|k: int| 0 <= k < piled.len() implies more.contains(
                (#[trigger] piled[k]).0,
            ) by {
                let n = stack.drop_last().len();
                if k < n {
                    assert(out.contains(stack[k].0));
                    let q = out.index_of(stack[k].0);
                    assert(more[q] == out[q]);
                } else {
                    assert(more[out.len() + (k - n)] == found[k - n]);
                }
            }
            if found.len() == 0 {
                assert(piled == stack.drop_last());
            }
            lemma_collected(piled, more, containers, max_depth);
            assert(out == r.subrange(0, out.len() as int)) by {
                assert(out == more.subrange(0, out.len() as int));
                assert(more == r.subrange(0, more.len() as int));
            }
            assert forall|k: int| out.len() <= k < r.len() implies containers.contains(
                #[trigger] r[k],
            ) && needed_before(r, k, r[k], containers) by {
                if k < more.len() {
                    assert(r[k] == more[k]);
                    assert(deps.contains(more[k]));
                    let q = out.index_of(c);
                    assert(r[q] == c) by {
                        assert(out.contains(c));
                        assert(more[q] == out[q]);
                        assert(r[q] == more[q]);
                    }
                    assert(r[q].dependencies(containers).contains(r[k]));
                    let m = deps.index_of(more[k]);
                    assert(containers.contains(deps[m]));
                }
            }
        }
    }
}

/// A container is stopped first, then only managed containers, each id once, and each because one
/// that is stopped before it depends on it.
pub proof fn lemma_stop_set(target: ContainerView, containers: Seq<ContainerView>, max_depth: usize)
    ensures
        stop_set(target, containers, max_depth).len() >= 1,
        stop_set(target, containers, max_depth)[0] == target,
        router_laws::distinct_ids(stop_set(target, containers, max_depth)),
        forall|k: int|
            1 <= k < stop_set(target, containers, max_depth).len() ==> containers.contains(
                #[trigger] stop_set(target, containers, max_depth)[k],
            ) && needed_before(
                stop_set(target, containers, max_depth),
                k,
                stop_set(target, containers, max_depth)[k],
                containers,
            ),
{
    let out = seq![target];
    let stack = seq![(target, 0usize)];
    assert(out.contains(out[0]));
    lemma_collected(stack, out, containers, max_depth);
    let r = stop_set(target, containers, max_depth);
    assert(out == r.subrange(0, 1));
    assert(r[0] == r.subrange(0, 1)[0]);
}

/// What a container depends on is stopped with it.
pub proof fn lemma_direct(
    target: ContainerView,
    d: ContainerView,
    containers: Seq<ContainerView>,
    max_depth: usize,
)
    requires
        max_depth > 0,
        target.dependencies(containers).contains(d),
    ensures
        router::has_id(stop_set(target, containers, max_depth), d.id),
{
    let out = seq![target];
    let stack = seq![(target, 0usize)];
    let deps = target.dependencies(containers);
    let found = fresh(out, deps);
    let piled = stack.drop_last() + at_depth(found, 1);
    let more = with_all(out, deps);
    let r = stop_set(target, containers, max_depth);
    assert(r == collected(piled, more, containers, max_depth));
    lemma_with_all(out, deps);
    assert forall|k: int| 0 <= k < piled.len() implies more.contains((#[trigger] piled[k]).0) by {
        assert(more[1 + k] == found[k]);
    }
    lemma_collected(piled, more, containers, max_depth);
    assert(deps[deps.index_of(d)].id == d.id);
    assert(router::has_id(deps, d.id));
    assert(router::has_id(more, d.id));
    let k = choose|k: int| 0 <= k < more.len() && (#[trigger] more[k]).id == d.id;
    assert(r[k] == more[k]) by {
        assert(more == r.subrange(0, more.len() as int));
    }
}

/// Every dependency of `c` is in `out`, by id.
pub open spec fn followed(
    c: ContainerView,
    out: Seq<ContainerView>,
    containers: Seq<ContainerView>,
) -> bool {
    forall|d: ContainerView| #[trigger]
        c.dependencies(containers).contains(d) ==> router::has_id(out, d.id)
}

/// `c` is on the stack.
pub open spec fn waits(c: ContainerView, stack: Stack) -> bool {
    exists|k: int| 0 <= k < stack.len() && (#[trigger] stack[k]).0 == c
}

/// While no more than `max_depth` containers are collected, none is left unfollowed.
proof fn lemma_collected_closed(
    stack: Stack,
    out: Seq<ContainerView>,
    containers: Seq<ContainerView>,
    max_depth: usize,
)
    requires
        router_laws::distinct_ids(out),
        forall|k: int|
            0 <= k < stack.len() ==> out.contains((#[trigger] stack[k]).0) && stack[k].1
                < out.len(),
        forall|k: int|
            0 <= k < out.len() ==> waits(#[trigger] out[k], stack) || followed(
                out[k],
                out,
                containers,
            ),
        collected(stack, out, containers, max_depth).len() <= max_depth,
    ensures
        forall|k: int|
            0 <= k < collected(stack, out, containers, max_depth).len() ==> followed(
                #[trigger] collected(stack, out, containers, max_depth)[k],
                collected(stack, out, containers, max_depth),
                containers,
            ),
    decreases unseen(containers, out).len(), stack.len(),
{
    let r = collected(stack, out, containers, max_depth);
    lemma_collected(stack, out, containers, max_depth);
    assert(out.len() <= r.len()) by {
        assert(out.is_prefix_of(r));
    }
    if stack.len() > 0 {
        let (c, depth) = stack.last();
        assert(stack[stack.len() - 1].1 < out.len());
        assert(depth < max_depth);
        let deps = c.dependencies(containers);
        let found = fresh(out, deps);
        let init = stack.drop_last();
        let piled = init + at_depth(found, (depth + 1) as usize);
        let more = with_all(out, deps);
        lemma_unseen(containers, out, c);
        lemma_with_all(out, deps);
        if found.len() == 0 {
            assert(piled == init);
        }
        assert forall|k: int| 0 <= k < piled.len() implies more.contains((#[trigger] piled[k]).0)
            && piled[k].1 < more.len() by {
            if k < init.len() {
                assert(out.contains(stack[k].0) && stack[k].1 < out.len());
                let q = out.index_of(stack[k].0);
                assert(more[q] == out[q]);
            } else {
                assert(more[out.len() + (k - init.len())] == found[k - init.len()]);
                assert(more.len() > out.len());
            }
        }
        assert forall|k: int| 0 <= k < more.len() implies waits(#[trigger] more[k], piled)
            || followed(more[k], more, containers) by {
            if k < out.len() {
                assert(more[k] == out[k]);
                assert(waits(out[k], stack) || followed(out[k], out, containers));
                if out[k] == c {
                    assert forall|d: ContainerView| #[trigger] deps.contains(
                        d,
                    ) implies router::has_id(more, d.id) by {
                        assert(deps[deps.index_of(d)].id == d.id);
                        assert(router::has_id(deps, d.id));
                    }
                } else if waits(out[k], stack) {
                    let m = choose|m: int| 0 <= m < stack.len() && (#[trigger] stack[m]).0 == out[k];
                    assert(piled[m].0 == out[k]);
                } else {
                    assert forall|d: ContainerView| #[trigger] out[k].dependencies(
                        containers,
                    ).contains(d) implies router::has_id(more, d.id) by {
                        assert(router::has_id(out, d.id));
                    }
                }
            } else {
                let m = init.len() + (k - out.len());
                assert(found[k - out.len()] == more[k]);
                assert(piled[m].0 == more[k]);
            }
        }
        assert(r == collected(piled, more, containers, max_depth));
        lemma_collected_closed(piled, more, containers, max_depth);
    } else {
        assert(r == out);
        assert forall|k: int| 0 <= k < r.len() implies followed(#[trigger] r[k], r, containers) by {
            assert(waits(out[k], stack) || followed(out[k], out, containers));
        }
    }
}

/// Where no more than `max_depth` containers are stopped, the depth limit played no part: whatever
/// one of them depends on is stopped too.
pub proof fn lemma_stop_set_closed(
    target: ContainerView,
    containers: Seq<ContainerView>,
    max_depth: usize,
)
    requires
        stop_set(target, containers, max_depth).len() <= max_depth,
    ensures
        forall|k: int|
            0 <= k < stop_set(target, containers, max_depth).len() ==> followed(
                #[trigger] stop_set(target, containers, max_depth)[k],
                stop_set(target, containers, max_depth),
                containers,
            ),
{
    let out = seq![target];
    let stack = seq![(target, 0usize)];
    assert(out.contains(out[0]));
    assert(stack[0].0 == target);
    assert forall|k: int| 0 <= k < out.len() implies waits(#[trigger] out[k], stack) || followed(
        out[k],
        out,
        containers,
    ) by {
        assert(stack[0].0 == out[k]);
    }
    lemma_collected_closed(stack, out, containers, max_depth);
}

} // verus!
