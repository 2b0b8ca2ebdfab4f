//! What holds of the order in which containers are started.

use crate::container;
use crate::container::ContainerView;
use crate::layers;
use crate::levels;
use crate::levels::{Found, Wave};
use crate::router;
use crate::sequences;
use vstd::prelude::*;

verus! {

/// No id stands twice in the wave.
pub open spec fn distinct_wave(w: Wave) -> bool {
    forall|i: int, j: int| 0 <= i < j < w.len() ==> (#[trigger] w[i]).0 != (#[trigger] w[j]).0
}

/// No id stands twice in the waves, in one of them or in two.
pub open spec fn distinct_waves(waves: Seq<Wave>) -> bool {
    &&& forall|k: int| 0 <= k < waves.len() ==> distinct_wave(#[trigger] waves[k])
    &&& forall|k: int, m: int, id: Seq<char>|
        0 <= k < m < waves.len() ==> !(#[trigger] levels::in_wave(waves[k], id)
            && #[trigger] levels::in_wave(waves[m], id))
}

/// `d` is one of the containers that the container with this id depends on.
pub open spec fn depends(
    id: Seq<char>,
    d: ContainerView,
    containers: Seq<ContainerView>,
) -> bool {
    levels::by_id(containers, id) matches Some(c) && c.dependencies(containers).contains(d)
}

/// The id is that of a container that some member of `from` depends on.
pub open spec fn found_from(id: Seq<char>, from: Wave, containers: Seq<ContainerView>) -> bool {
    exists|i: int, d: ContainerView|
        0 <= i < from.len() && #[trigger] depends((#[trigger] from[i]).0, d, containers) && d.id
            == id
}

/// Whatever a member of `from` depends on was found before or is in `next`.
pub open spec fn covers(
    waves: Seq<Wave>,
    next: Wave,
    from: Wave,
    containers: Seq<ContainerView>,
) -> bool {
    forall|i: int, d: ContainerView|
        0 <= i < from.len() && #[trigger] depends((#[trigger] from[i]).0, d, containers)
            ==> levels::in_waves(waves, d.id) || levels::in_wave(next, d.id)
}

proof fn lemma_with_found(waves: Seq<Wave>, wave: Wave, f: Found)
    requires
        distinct_wave(wave),
    ensures
        distinct_wave(levels::with_found(waves, wave, f)),
        forall|id: Seq<char>| #[trigger]
            levels::in_wave(levels::with_found(waves, wave, f), id) <==> levels::in_wave(wave, id)
                || (id == f.0 && !levels::in_waves(waves, f.0)),
{
    let after = levels::with_found(waves, wave, f);
    assert forall|id: Seq<char>| #[trigger] levels::in_wave(after, id) <==> levels::in_wave(
        wave,
        id,
    ) || (id == f.0 && !levels::in_waves(waves, f.0)) by {
        if levels::in_wave(wave, id) {
            let i = choose|i: int| 0 <= i < wave.len() && (#[trigger] wave[i]).0 == id;
            assert(after[i].0 == id);
        }
        if id == f.0 && !levels::in_waves(waves, f.0) && !levels::in_wave(wave, id) {
            assert(after[wave.len() as int].0 == id);
        }
        if levels::in_wave(after, id) {
            let i = choose|i: int| 0 <= i < after.len() && (#[trigger] after[i]).0 == id;
            if i < wave.len() {
                assert(wave[i].0 == id);
            }
        }
    }
    assert forall|i: int, j: int| 0 <= i < j < after.len() implies (#[trigger] after[i]).0 != (
    #[trigger] after[j]).0 by {
        if j == wave.len() {
            assert(wave[i].0 != f.0);
        }
    }
}

proof fn lemma_with_dependencies(
    waves: Seq<Wave>,
    wave: Wave,
    c: ContainerView,
    deps: Seq<ContainerView>,
)
    requires
        distinct_wave(wave),
    ensures
        distinct_wave(levels::with_dependencies(waves, wave, c, deps)),
        forall|id: Seq<char>| #[trigger]
            levels::in_wave(levels::with_dependencies(waves, wave, c, deps), id)
                <==> levels::in_wave(wave, id) || (router::has_id(deps, id) && !levels::in_waves(
                waves,
                id,
            )),
    decreases deps.len(),
{
    if deps.len() > 0 {
        let init = deps.drop_last();
        let d = deps.last();
        lemma_with_dependencies(waves, wave, c, init);
        let before = levels::with_dependencies(waves, wave, c, init);
        let f = (d.id, levels::condition_on(c.depends_on, d.compose_service));
        lemma_with_found(waves, before, f);
        let after = levels::with_dependencies(waves, wave, c, deps);
        assert(after == levels::with_found(waves, before, f));
        assert forall|id: Seq<char>| #[trigger] levels::in_wave(after, id) <==> levels::in_wave(
            wave,
            id,
        ) || (router::has_id(deps, id) && !levels::in_waves(waves, id)) by {
            assert(levels::in_wave(before, id) <==> levels::in_wave(wave, id) || (router::has_id(
                init,
                id,
            ) && !levels::in_waves(waves, id)));
            if router::has_id(init, id) {
                let k = choose|k: int| 0 <= k < init.len() && (#[trigger] init[k]).id == id;
                assert(deps[k].id == id);
            }
            if id == d.id {
                assert(deps[deps.len() - 1].id == id);
            }
            if router::has_id(deps, id) && id != d.id {
                let k = choose|k: int| 0 <= k < deps.len() && (#[trigger] deps[k]).id == id;
                assert(init[k].id == id);
            }
        }
    }
}

proof fn lemma_next_wave(waves: Seq<Wave>, from: Wave, containers: Seq<ContainerView>)
    ensures
        distinct_wave(levels::next_wave(waves, from, containers)),
        covers(waves, levels::next_wave(waves, from, containers), from, containers),
        forall|id: Seq<char>| #[trigger]
            levels::in_wave(levels::next_wave(waves, from, containers), id) ==> !levels::in_waves(
                waves,
                id,
            ) && found_from(id, from, containers),
    decreases from.len(),
{
    if from.len() > 0 {
        let init = from.drop_last();
        let last = from.last();
        lemma_next_wave(waves, init, containers);
        let before = levels::next_wave(waves, init, containers);
        let after = levels::next_wave(waves, from, containers);
        assert forall|id: Seq<char>| found_from(id, init, containers) implies found_from(
            id,
            from,
            containers,
        ) by {
            let (i, d) = choose|i: int, d: ContainerView|
                0 <= i < init.len() && #[trigger] depends((#[trigger] init[i]).0, d, containers)
                    && d.id == id;
            assert(depends(from[i].0, d, containers));
        }
        match levels::by_id(containers, last.0) {
            Some(c) => {
                let deps = c.dependencies(containers);
                lemma_with_dependencies(waves, before, c, deps);
                assert forall|id: Seq<char>| #[trigger] levels::in_wave(
                    after,
                    id,
                ) implies !levels::in_waves(waves, id) && found_from(id, from, containers) by {
                    if !levels::in_wave(before, id) {
                        let k = choose|k: int| 0 <= k < deps.len() && (#[trigger] deps[k]).id == id;
                        assert(deps.contains(deps[k]));
                        assert(depends(from[from.len() - 1].0, deps[k], containers));
                    } else {
                        assert(found_from(id, init, containers));
                    }
                }
                assert forall|i: int, d: ContainerView|
                    0 <= i < from.len() && #[trigger] depends(
                        (#[trigger] from[i]).0,
                        d,
                        containers,
                    ) implies levels::in_waves(waves, d.id) || levels::in_wave(after, d.id) by {
                    if i < init.len() {
                        assert(depends(init[i].0, d, containers));
                        assert(levels::in_waves(waves, d.id) || levels::in_wave(before, d.id));
                    } else {
                        assert(deps[deps.index_of(d)].id == d.id);
                        assert(router::has_id(deps, d.id));
                    }
                }
            },
            None => {
                assert forall|i: int, d: ContainerView|
                    0 <= i < from.len() && #[trigger] depends(
                        (#[trigger] from[i]).0,
                        d,
                        containers,
                    ) implies levels::in_waves(waves, d.id) || levels::in_wave(after, d.id) by {
                    if i < init.len() {
                        assert(depends(init[i].0, d, containers));
                    }
                }
                assert forall|id: Seq<char>| #[trigger] levels::in_wave(
                    after,
                    id,
                ) implies !levels::in_waves(waves, id) && found_from(id, from, containers) by {
                    assert(levels::in_wave(before, id));
                    assert(found_from(id, init, containers));
                }
            },
        }
    }
}

/// Every wave but the first was found from the one before it.
pub open spec fn linked(waves: Seq<Wave>, containers: Seq<ContainerView>) -> bool {
    forall|k: int, id: Seq<char>|
        0 < k < waves.len() && #[trigger] levels::in_wave(waves[k], id) ==> found_from(
            id,
            waves[k - 1],
            containers,
        )
}

/// Whatever a member of one of the first `n` waves depends on stands in a wave at most one farther.
pub open spec fn complete(waves: Seq<Wave>, n: int, containers: Seq<ContainerView>) -> bool {
    forall|k: int, i: int, d: ContainerView|
        0 <= k < n && 0 <= i < waves[k].len() && #[trigger] depends(
            (#[trigger] waves[k][i]).0,
            d,
            containers,
        ) ==> exists|m: int| 0 <= m <= k + 1 && m < waves.len() && levels::in_wave(
            #[trigger] waves[m],
            d.id,
        )
}

proof fn lemma_waves_from(waves: Seq<Wave>, containers: Seq<ContainerView>, depth: nat)
    requires
        waves.len() > 0,
        distinct_waves(waves),
        linked(waves, containers),
        complete(waves, waves.len() - 1, containers),
    ensures
        ({
            let r = levels::waves_from(waves, containers, depth);
            &&& waves.len() <= r.len() <= waves.len() + depth
            &&& waves.is_prefix_of(r)
            &&& distinct_waves(r)
            &&& linked(r, containers)
            &&& complete(r, r.len() - 1, containers)
            &&& r.len() < waves.len() + depth ==> complete(r, r.len() as int, containers)
        }),
    decreases depth,
{
    assert(waves == waves.subrange(0, waves.len() as int));
    if depth > 0 {
        let from = waves.last();
        let next = levels::next_wave(waves, from, containers);
        lemma_next_wave(waves, from, containers);
        let more = waves.push(next);
        assert(complete(more, waves.len() as int, containers)) by {
            assert forall|k: int, i: int, d: ContainerView|
                0 <= k < waves.len() && 0 <= i < more[k].len() && #[trigger] depends(
                    (#[trigger] more[k][i]).0,
                    d,
                    containers,
                ) implies exists|m: int|
                0 <= m <= k + 1 && m < more.len() && levels::in_wave(#[trigger] more[m], d.id) by {
                if k < waves.len() - 1 {
                    assert(depends(waves[k][i].0, d, containers));
                    let m = choose|m: int|
                        0 <= m <= k + 1 && m < waves.len() && levels::in_wave(
                            #[trigger] waves[m],
                            d.id,
                        );
                    assert(levels::in_wave(more[m], d.id));
                } else {
                    assert(depends(from[i].0, d, containers));
                    if levels::in_waves(waves, d.id) {
                        let m = choose|m: int|
                            0 <= m < waves.len() && levels::in_wave(#[trigger] waves[m], d.id);
                        assert(levels::in_wave(more[m], d.id));
                    } else {
                        assert(levels::in_wave(more[waves.len() as int], d.id));
                    }
                }
            }
        }
        if next.len() == 0 {
            assert(complete(waves, waves.len() as int, containers)) by {
                assert forall|k: int, i: int, d: ContainerView|
                    0 <= k < waves.len() && 0 <= i < waves[k].len() && #[trigger] depends(
                        (#[trigger] waves[k][i]).0,
                        d,
                        containers,
                    ) implies exists|m: int|
                    0 <= m <= k + 1 && m < waves.len() && levels::in_wave(
                        #[trigger] waves[m],
                        d.id,
                    ) by {
                    assert(depends(more[k][i].0, d, containers));
                    let m = choose|m: int|
                        0 <= m <= k + 1 && m < more.len() && levels::in_wave(
                            #[trigger] more[m],
                            d.id,
                        );
                    assert(m < waves.len());
                    assert(levels::in_wave(waves[m], d.id));
                }
            }
        } else {
            assert(distinct_waves(more)) by {
                assert forall|k: int| 0 <= k < more.len() implies distinct_wave(
                    #[trigger] more[k],
                ) by {
                    if k < waves.len() {
                        assert(more[k] == waves[k]);
                    }
                }
                assert forall|k: int, m: int, id: Seq<char>| 0 <= k < m < more.len() implies !(
                #[trigger] levels::in_wave(more[k], id) && #[trigger] levels::in_wave(
                    more[m],
                    id,
                )) by {
                    assert(more[k] == waves[k]);
                    if m < waves.len() {
                        assert(more[m] == waves[m]);
                    } else if levels::in_wave(next, id) && levels::in_wave(waves[k], id) {
                        assert(levels::in_waves(waves, id));
                    }
                }
            }
            assert(linked(more, containers)) by {
                assert forall|k: int, id: Seq<char>|
                    0 < k < more.len() && #[trigger] levels::in_wave(
                        more[k],
                        id,
                    ) implies found_from(id, more[k - 1], containers) by {
                    if k < waves.len() {
                        assert(more[k] == waves[k]);
                        assert(levels::in_wave(waves[k], id));
                    }
                }
            }
            lemma_waves_from(more, containers, (depth - 1) as nat);
            let r = levels::waves_from(more, containers, (depth - 1) as nat);
            assert(waves == r.subrange(0, waves.len() as int)) by {
                assert(more == r.subrange(0, more.len() as int));
                assert(waves == more.subrange(0, waves.len() as int));
            }
        }
    }
}

proof fn lemma_first_wave(targets: Seq<ContainerView>)
    ensures
        distinct_wave(levels::first_wave(targets)),
        forall|id: Seq<char>| #[trigger]
            levels::in_wave(levels::first_wave(targets), id) <==> router::has_id(targets, id),
    decreases targets.len(),
{
    if targets.len() > 0 {
        let init = targets.drop_last();
        let t = targets.last();
        lemma_first_wave(init);
        let none = Seq::<Wave>::empty();
        lemma_with_found(none, levels::first_wave(init), (t.id, None));
        assert forall|id: Seq<char>| #[trigger] levels::in_wave(
            levels::first_wave(targets),
            id,
        ) <==> router::has_id(targets, id) by {
            assert(levels::in_wave(levels::first_wave(init), id) <==> router::has_id(init, id));
            assert(!levels::in_waves(none, t.id));
            if router::has_id(init, id) {
                let k = choose|k: int| 0 <= k < init.len() && (#[trigger] init[k]).id == id;
                assert(targets[k].id == id);
            }
            if id == t.id {
                assert(targets[targets.len() - 1].id == id);
            }
            if router::has_id(targets, id) && id != t.id {
                let k = choose|k: int| 0 <= k < targets.len() && (#[trigger] targets[k]).id == id;
                assert(init[k].id == id);
            }
        }
    }
}

/// The waves of some targets: no more than the depth allows; no id twice, so that nothing is
/// started twice; first exactly the targets; then only what the wave before depends on; and
/// whatever a member depends on stands at most one wave farther, unless the depth limit was
/// reached there.
pub proof fn lemma_waves(
    targets: Seq<ContainerView>,
    containers: Seq<ContainerView>,
    max_depth: usize,
)
    ensures
        ({
            let r = levels::waves_of(targets, containers, max_depth);
            &&& 1 <= r.len() <= max_depth + 1
            &&& distinct_waves(r)
            &&& forall|id: Seq<char>| #[trigger]
                levels::in_wave(r[0], id) <==> router::has_id(targets, id)
            &&& linked(r, containers)
            &&& complete(r, r.len() - 1, containers)
            &&& r.len() <= max_depth ==> complete(r, r.len() as int, containers)
        }),
{
    let first = levels::first_wave(targets);
    let waves = seq![first];
    lemma_first_wave(targets);
    lemma_waves_from(waves, containers, max_depth as nat);
    let r = levels::waves_of(targets, containers, max_depth);
    assert(r[0] == first) by {
        assert(waves == r.subrange(0, 1));
        assert(r.subrange(0, 1)[0] == r[0]);
    }
}

/// Some member of the level has this id.
pub open spec fn in_level(level: Seq<levels::Member>, id: Seq<char>) -> bool {
    exists|i: int| 0 <= i < level.len() && (#[trigger] level[i]).0.id == id
}

/// A level holds the ids of its wave that are those of containers.
pub proof fn lemma_members(wave: Wave, containers: Seq<ContainerView>, id: Seq<char>)
    ensures
        in_level(levels::members(wave, containers), id) <==> levels::in_wave(wave, id)
            && router::has_id(containers, id),
{
    let f = |x: Found| levels::member(x, containers);
    let level = levels::members(wave, containers);
    let p = |c: ContainerView| c.id == id;
    container::lemma_first_such(containers, p);
    if in_level(level, id) {
        let i = choose|i: int| 0 <= i < level.len() && (#[trigger] level[i]).0.id == id;
        sequences::lemma_filter_map_contains(wave, f, level[i]);
        assert(level.contains(level[i]));
        let k = choose|k: int| 0 <= k < wave.len() && f(#[trigger] wave[k]) == Some(level[i]);
        let q = |c: ContainerView| c.id == wave[k].0;
        container::lemma_first_such(containers, q);
        assert(wave[k].0 == id);
        let c = level[i].0;
        assert(containers.contains(c));
        assert(containers[containers.index_of(c)].id == id);
    }
    if levels::in_wave(wave, id) && router::has_id(containers, id) {
        let k = choose|k: int| 0 <= k < wave.len() && (#[trigger] wave[k]).0 == id;
        let m = choose|m: int| 0 <= m < containers.len() && (#[trigger] containers[m]).id == id;
        assert(containers.contains(containers[m]));
        assert(p(containers[m]));
        match levels::by_id(containers, id) {
            Some(c) => {
                let x = (c, wave[k].1);
                assert(f(wave[k]) == Some(x));
                sequences::lemma_filter_map_contains(wave, f, x);
                assert(level.contains(x));
                assert(level[level.index_of(x)].0.id == id);
            },
            None => {},
        }
    }
}

/// A member of a wave is the container with its id, and its id was found there.
proof fn lemma_member(wave: Wave, containers: Seq<ContainerView>, i: int)
    requires
        0 <= i < levels::members(wave, containers).len(),
    ensures
        ({
            let m = levels::members(wave, containers)[i];
            &&& levels::in_wave(wave, m.0.id)
            &&& levels::by_id(containers, m.0.id) == Some(m.0)
        }),
{
    let f = |x: Found| levels::member(x, containers);
    let level = levels::members(wave, containers);
    assert(level.contains(level[i]));
    sequences::lemma_filter_map_contains(wave, f, level[i]);
    let k = choose|k: int| 0 <= k < wave.len() && f(#[trigger] wave[k]) == Some(level[i]);
    container::lemma_first_such(containers, |c: ContainerView| c.id == wave[k].0);
    assert(level[i].0.id == wave[k].0);
}

/// No two members of a wave have one id, where no id was found twice.
proof fn lemma_distinct_members(wave: Wave, containers: Seq<ContainerView>)
    requires
        distinct_wave(wave),
    ensures
        forall|i: int, j: int|
            0 <= i < j < levels::members(wave, containers).len() ==> (#[trigger] levels::members(
                wave,
                containers,
            )[i]).0.id != (#[trigger] levels::members(wave, containers)[j]).0.id,
    decreases wave.len(),
{
    reveal(Seq::filter_map);
    if wave.len() > 0 {
        let f = |x: Found| levels::member(x, containers);
        let init = wave.drop_last();
        let level = levels::members(wave, containers);
        let before = levels::members(init, containers);
        assert(distinct_wave(init)) by {
            assert forall|i: int, j: int| 0 <= i < j < init.len() implies (#[trigger] init[i]).0
                != (#[trigger] init[j]).0 by {
                assert(wave[i].0 != wave[j].0);
            }
        }
        lemma_distinct_members(init, containers);
        match f(wave.last()) {
            Some(m) => {
                assert(level == before.push(m));
                container::lemma_first_such(
                    containers,
                    |c: ContainerView| c.id == wave.last().0,
                );
                assert(m.0.id == wave.last().0);
                assert forall|i: int, j: int| 0 <= i < j < level.len() implies (
                #[trigger] level[i]).0.id != (#[trigger] level[j]).0.id by {
                    assert(level[i] == before[i]);
                    if j == before.len() {
                        lemma_member(init, containers, i);
                        let k = choose|k: int|
                            0 <= k < init.len() && (#[trigger] init[k]).0 == before[i].0.id;
                        assert(wave[k].0 != wave[wave.len() - 1].0);
                    } else {
                        assert(level[j] == before[j]);
                    }
                }
            },
            None => {
                assert(level == before);
            },
        }
    }
}

/// The `j`th of all members is the container with its id, and was found in the wave of its number.
pub open spec fn is_placed(waves: Seq<Wave>, containers: Seq<ContainerView>, j: int) -> bool {
    let m = levels::all_members(waves, containers)[j];
    let k = levels::wave_numbers(waves, containers)[j];
    &&& k < waves.len()
    &&& levels::in_wave(waves[k as int], m.0.id)
    &&& levels::by_id(containers, m.0.id) == Some(m.0)
}

/// Some member has this id and this wave.
pub open spec fn has_place(
    waves: Seq<Wave>,
    containers: Seq<ContainerView>,
    id: Seq<char>,
    k: int,
) -> bool {
    exists|j: int|
        0 <= j < levels::all_members(waves, containers).len() && (#[trigger] levels::all_members(
            waves,
            containers,
        )[j]).0.id == id && levels::wave_numbers(waves, containers)[j] == k
}

/// All members stand in their waves, and all that was found is a member where it is a container.
proof fn lemma_all_members(waves: Seq<Wave>, containers: Seq<ContainerView>)
    ensures
        levels::all_members(waves, containers).len() == levels::wave_numbers(
            waves,
            containers,
        ).len(),
        forall|j: int|
            0 <= j < levels::all_members(waves, containers).len() ==> #[trigger] is_placed(
                waves,
                containers,
                j,
            ),
        forall|k: int, id: Seq<char>|
            0 <= k < waves.len() && #[trigger] levels::in_wave(waves[k], id) && router::has_id(
                containers,
                id,
            ) ==> has_place(waves, containers, id, k),
    decreases waves.len(),
{
    if waves.len() > 0 {
        let init = waves.drop_last();
        let last = waves.len() - 1;
        lemma_all_members(init, containers);
        let all0 = levels::all_members(init, containers);
        let all = levels::all_members(waves, containers);
        let base0 = levels::wave_numbers(init, containers);
        let base = levels::wave_numbers(waves, containers);
        let here = levels::members(waves.last(), containers);
        assert(all == all0 + here);
        assert forall|j: int| 0 <= j < all.len() implies #[trigger] is_placed(
            waves,
            containers,
            j,
        ) by {
            if j < all0.len() {
                assert(is_placed(init, containers, j));
                assert(all[j] == all0[j] && base[j] == base0[j]);
                assert(waves[base[j] as int] == init[base[j] as int]);
            } else {
                lemma_member(waves.last(), containers, j - all0.len());
                assert(all[j] == here[j - all0.len()]);
                assert(base[j] == last);
            }
        }
        assert forall|k: int, id: Seq<char>|
            0 <= k < waves.len() && #[trigger] levels::in_wave(waves[k], id) && router::has_id(
                containers,
                id,
            ) implies has_place(waves, containers, id, k) by {
            if k < last {
                assert(levels::in_wave(init[k], id));
                assert(has_place(init, containers, id, k));
                let j = choose|j: int|
                    0 <= j < all0.len() && (#[trigger] all0[j]).0.id == id && base0[j] == k;
                assert(all[j].0.id == id && base[j] == k);
            } else {
                lemma_members(waves.last(), containers, id);
                let i = choose|i: int| 0 <= i < here.len() && (#[trigger] here[i]).0.id == id;
                let j = all0.len() + i;
                assert(all[j].0.id == id && base[j] == k);
            }
        }
    }
}

/// No two members have one id, where no id was found twice.
proof fn lemma_distinct_all(waves: Seq<Wave>, containers: Seq<ContainerView>)
    requires
        distinct_waves(waves),
    ensures
        forall|i: int, j: int|
            0 <= i < j < levels::all_members(waves, containers).len() ==> (
            #[trigger] levels::all_members(waves, containers)[i]).0.id != (
            #[trigger] levels::all_members(waves, containers)[j]).0.id,
    decreases waves.len(),
{
    if waves.len() > 0 {
        let init = waves.drop_last();
        assert(distinct_waves(init)) by {
            assert forall|k: int| 0 <= k < init.len() implies distinct_wave(#[trigger] init[k]) by {
                assert(distinct_wave(waves[k]));
            }
            assert forall|k: int, m: int, id: Seq<char>| 0 <= k < m < init.len() implies !(
            #[trigger] levels::in_wave(init[k], id) && #[trigger] levels::in_wave(init[m], id)) by {
                assert(init[k] == waves[k] && init[m] == waves[m]);
            }
        }
        lemma_distinct_all(init, containers);
        lemma_all_members(init, containers);
        let all0 = levels::all_members(init, containers);
        let all = levels::all_members(waves, containers);
        let here = levels::members(waves.last(), containers);
        assert(distinct_wave(waves[waves.len() - 1]));
        lemma_distinct_members(waves.last(), containers);
        assert forall|i: int, j: int| 0 <= i < j < all.len() implies (#[trigger] all[i]).0.id != (
        #[trigger] all[j]).0.id by {
            if j < all0.len() {
                assert(all[i] == all0[i] && all[j] == all0[j]);
            } else {
                assert(all[j] == here[j - all0.len()]);
                lemma_member(waves.last(), containers, j - all0.len());
                if i < all0.len() {
                    assert(all[i] == all0[i]);
                    assert(is_placed(init, containers, i));
                    let k = levels::wave_numbers(init, containers)[i] as int;
                    assert(levels::in_wave(waves[k], all[i].0.id));
                    assert(levels::in_wave(waves[waves.len() - 1], all[j].0.id));
                } else {
                    assert(all[i] == here[i - all0.len()]);
                }
            }
        }
    }
}

/// No depth is larger than the deepest.
proof fn lemma_deepest(depths: Seq<nat>)
    ensures
        forall|j: int| 0 <= j < depths.len() ==> #[trigger] depths[j] <= levels::deepest(depths),
    decreases depths.len(),
{
    if depths.len() > 0 {
        let init = depths.drop_last();
        lemma_deepest(init);
        assert forall|j: int| 0 <= j < depths.len() implies #[trigger] depths[j]
            <= levels::deepest(depths) by {
            if j < init.len() {
                assert(init[j] == depths[j]);
            }
        }
    }
}

/// A level holds the members of its depth.
proof fn lemma_at_depth(all: Seq<levels::Member>, depths: Seq<nat>, d: nat, id: Seq<char>)
    requires
        all.len() == depths.len(),
    ensures
        in_level(levels::at_depth(all, depths, d), id) <==> exists|j: int|
            0 <= j < all.len() && (#[trigger] all[j]).0.id == id && depths[j] == d,
    decreases all.len(),
{
    if all.len() > 0 {
        let init = all.drop_last();
        let ds = depths.drop_last();
        lemma_at_depth(init, ds, d, id);
        let before = levels::at_depth(init, ds, d);
        let after = levels::at_depth(all, depths, d);
        if in_level(before, id) {
            let i = choose|i: int| 0 <= i < before.len() && (#[trigger] before[i]).0.id == id;
            assert(after[i].0.id == id);
            let j = choose|j: int|
                0 <= j < init.len() && (#[trigger] init[j]).0.id == id && ds[j] == d;
            assert(all[j].0.id == id && depths[j] == d);
        }
        if depths.last() == d && all.last().0.id == id {
            assert(after[before.len() as int].0.id == id);
            assert(all[all.len() - 1].0.id == id && depths[all.len() - 1] == d);
        }
        if in_level(after, id) && !in_level(before, id) {
            let i = choose|i: int| 0 <= i < after.len() && (#[trigger] after[i]).0.id == id;
            if i < before.len() {
                assert(before[i].0.id == id);
            }
            assert(all[all.len() - 1].0.id == id);
        }
        if exists|j: int| 0 <= j < all.len() && (#[trigger] all[j]).0.id == id && depths[j] == d {
            let j = choose|j: int|
                0 <= j < all.len() && (#[trigger] all[j]).0.id == id && depths[j] == d;
            if j < init.len() {
                assert(init[j].0.id == id && ds[j] == d);
            }
        }
    }
}

/// The members of some targets, their depths and their levels: a level holds the ids of the members
/// at its depth.
proof fn lemma_levels(
    targets: Seq<ContainerView>,
    containers: Seq<ContainerView>,
    max_depth: usize,
)
    ensures
        ({
            let waves = levels::waves_of(targets, containers, max_depth);
            let all = levels::all_members(waves, containers);
            let base = levels::wave_numbers(waves, containers);
            let depths = levels::depths_of(all, base, containers);
            let r = levels::levels_of(targets, containers, max_depth);
            &&& r.len() == levels::deepest(depths) + 1
            &&& forall|k: int, id: Seq<char>|
                0 <= k < r.len() ==> (#[trigger] in_level(r[k], id) <==> exists|j: int|
                    0 <= j < all.len() && (#[trigger] all[j]).0.id == id && depths[j]
                        == levels::deepest(depths) - k)
            &&& forall|j: int| 0 <= j < all.len() ==> #[trigger] depths[j] < r.len()
        }),
{
    let waves = levels::waves_of(targets, containers, max_depth);
    let all = levels::all_members(waves, containers);
    let base = levels::wave_numbers(waves, containers);
    let depths = levels::depths_of(all, base, containers);
    let r = levels::levels_of(targets, containers, max_depth);
    lemma_deepest(depths);
    assert forall|k: int, id: Seq<char>| 0 <= k < r.len() implies (#[trigger] in_level(r[k], id)
        <==> exists|j: int|
        0 <= j < all.len() && (#[trigger] all[j]).0.id == id && depths[j] == levels::deepest(depths)
            - k) by {
        lemma_at_depth(all, depths, (levels::deepest(depths) - k) as nat, id);
    }
}

// ---------------------------------------------------------------------------------------------
// What is started, and in which order
// ---------------------------------------------------------------------------------------------

/// The container with the id `a` depends on that with the id `b`.
pub open spec fn step(containers: Seq<ContainerView>, a: Seq<char>, b: Seq<char>) -> bool {
    levels::by_id(containers, a) matches Some(c) && levels::needs(c, b, containers)
}

/// `n` dependencies, one after the other, lead from one id to another.
pub open spec fn leads(containers: Seq<ContainerView>, a: Seq<char>, b: Seq<char>, n: nat) -> bool
    decreases n,
{
    if n == 0 {
        a == b
    } else {
        exists|m: Seq<char>|
            leads(containers, a, m, (n - 1) as nat) && #[trigger] step(containers, m, b)
    }
}

/// What the container with the id `a` depends on, directly or not, leads to the id `b`.
pub open spec fn leads_to(containers: Seq<ContainerView>, a: Seq<char>, b: Seq<char>) -> bool {
    exists|n: nat| #[trigger] leads(containers, a, b, n)
}

/// A way in the graph of the members is a way of dependencies.
proof fn lemma_leads(
    all: Seq<levels::Member>,
    containers: Seq<ContainerView>,
    i: int,
    j: int,
    n: nat,
)
    requires
        0 <= i < all.len(),
        forall|x: int|
            0 <= x < all.len() ==> levels::by_id(containers, (#[trigger] all[x]).0.id) == Some(
                all[x].0,
            ),
        layers::leads(levels::graph_of(all, containers), i, j, n),
    ensures
        0 <= j < all.len(),
        leads(containers, all[i].0.id, all[j].0.id, n),
    decreases n,
{
    if n > 0 {
        let g = levels::graph_of(all, containers);
        let m = choose|m: int|
            layers::leads(g, i, m, (n - 1) as nat) && #[trigger] layers::edge(g, m, j);
        lemma_leads(all, containers, i, m, (n - 1) as nat);
        assert(step(containers, all[m].0.id, all[j].0.id));
    }
}

/// What a container depends on is started before it: in an earlier level, wherever both are started
/// and do not depend on each other in a circle.
pub proof fn lemma_dependencies_first(
    targets: Seq<ContainerView>,
    containers: Seq<ContainerView>,
    max_depth: usize,
    k: int,
    m: int,
    c: ContainerView,
    d: ContainerView,
)
    requires
        0 <= k < levels::levels_of(targets, containers, max_depth).len(),
        0 <= m < levels::levels_of(targets, containers, max_depth).len(),
        levels::by_id(containers, c.id) == Some(c),
        c.dependencies(containers).contains(d),
        in_level(levels::levels_of(targets, containers, max_depth)[k], c.id),
        in_level(levels::levels_of(targets, containers, max_depth)[m], d.id),
        !leads_to(containers, d.id, c.id),
    ensures
        m < k,
{
    let waves = levels::waves_of(targets, containers, max_depth);
    let all = levels::all_members(waves, containers);
    let base = levels::wave_numbers(waves, containers);
    let depths = levels::depths_of(all, base, containers);
    let g = levels::graph_of(all, containers);
    let r = levels::levels_of(targets, containers, max_depth);
    lemma_levels(targets, containers, max_depth);
    lemma_all_members(waves, containers);
    assert(in_level(r[k], c.id) && in_level(r[m], d.id));
    let i = choose|i: int|
        0 <= i < all.len() && (#[trigger] all[i]).0.id == c.id && depths[i] == levels::deepest(
            depths,
        ) - k;
    let j = choose|j: int|
        0 <= j < all.len() && (#[trigger] all[j]).0.id == d.id && depths[j] == levels::deepest(
            depths,
        ) - m;
    assert forall|x: int| 0 <= x < all.len() implies levels::by_id(
        containers,
        (#[trigger] all[x]).0.id,
    ) == Some(all[x].0) by {
        assert(is_placed(waves, containers, x));
    }
    let deps = c.dependencies(containers);
    assert(deps[deps.index_of(d)].id == d.id);
    assert(layers::edge(g, i, j));
    assert(!layers::reaches(g, j, i)) by {
        if layers::reaches(g, j, i) {
            let n = choose|n: nat| n > 0 && #[trigger] layers::leads(g, j, i, n);
            lemma_leads(all, containers, j, i, n);
            assert(leads(containers, d.id, c.id, n));
        }
    }
    assert(layers::precedes(g, i, j));
    layers::lemma_depth(g, base, j);
}

/// The containers of one level can be started side by side: where one of them depends on another,
/// that one leads back to it.
pub proof fn lemma_side_by_side(
    targets: Seq<ContainerView>,
    containers: Seq<ContainerView>,
    max_depth: usize,
    k: int,
    c: ContainerView,
    d: ContainerView,
)
    requires
        0 <= k < levels::levels_of(targets, containers, max_depth).len(),
        levels::by_id(containers, c.id) == Some(c),
        c.dependencies(containers).contains(d),
        in_level(levels::levels_of(targets, containers, max_depth)[k], c.id),
        in_level(levels::levels_of(targets, containers, max_depth)[k], d.id),
    ensures
        leads_to(containers, d.id, c.id),
{
    if !leads_to(containers, d.id, c.id) {
        lemma_dependencies_first(targets, containers, max_depth, k, k, c, d);
    }
}

/// The id stands in some level.
pub open spec fn is_started(r: Seq<Seq<levels::Member>>, id: Seq<char>) -> bool {
    exists|k: int| 0 <= k < r.len() && in_level(#[trigger] r[k], id)
}

/// What is started is what was found and is a container.
pub proof fn lemma_started(
    targets: Seq<ContainerView>,
    containers: Seq<ContainerView>,
    max_depth: usize,
    id: Seq<char>,
)
    ensures
        is_started(levels::levels_of(targets, containers, max_depth), id) <==> levels::in_waves(
            levels::waves_of(targets, containers, max_depth),
            id,
        ) && router::has_id(containers, id),
{
    let waves = levels::waves_of(targets, containers, max_depth);
    let all = levels::all_members(waves, containers);
    let base = levels::wave_numbers(waves, containers);
    let depths = levels::depths_of(all, base, containers);
    let r = levels::levels_of(targets, containers, max_depth);
    lemma_levels(targets, containers, max_depth);
    lemma_all_members(waves, containers);
    if is_started(r, id) {
        let k = choose|k: int| 0 <= k < r.len() && in_level(#[trigger] r[k], id);
        let j = choose|j: int|
            0 <= j < all.len() && (#[trigger] all[j]).0.id == id && depths[j] == levels::deepest(
                depths,
            ) - k;
        assert(is_placed(waves, containers, j));
        assert(levels::in_wave(waves[base[j] as int], id));
        container::lemma_first_such(containers, |c: ContainerView| c.id == id);
        assert(containers.contains(all[j].0));
        assert(containers[containers.index_of(all[j].0)].id == id);
    }
    if levels::in_waves(waves, id) && router::has_id(containers, id) {
        let k = choose|k: int| 0 <= k < waves.len() && levels::in_wave(#[trigger] waves[k], id);
        assert(has_place(waves, containers, id, k));
        let j = choose|j: int| 0 <= j < all.len() && (#[trigger] all[j]).0.id == id && base[j] == k;
        let m = levels::deepest(depths) - depths[j];
        assert(depths[j] < r.len());
        assert(in_level(r[m], id));
    }
}

/// What was found in a wave is as many dependencies from a target as the wave is far.
proof fn lemma_wave_leads(
    targets: Seq<ContainerView>,
    containers: Seq<ContainerView>,
    max_depth: usize,
    k: int,
    id: Seq<char>,
) -> (t: int)
    requires
        0 <= k < levels::waves_of(targets, containers, max_depth).len(),
        levels::in_wave(levels::waves_of(targets, containers, max_depth)[k], id),
    ensures
        0 <= t < targets.len(),
        leads(containers, targets[t].id, id, k as nat),
    decreases k,
{
    let waves = levels::waves_of(targets, containers, max_depth);
    lemma_waves(targets, containers, max_depth);
    if k == 0 {
        assert(router::has_id(targets, id));
        choose|t: int| 0 <= t < targets.len() && (#[trigger] targets[t]).id == id
    } else {
        assert(found_from(id, waves[k - 1], containers));
        let (x, d) = choose|x: int, d: ContainerView|
            0 <= x < waves[k - 1].len() && #[trigger] depends(
                (#[trigger] waves[k - 1][x]).0,
                d,
                containers,
            ) && d.id == id;
        let from = waves[k - 1][x].0;
        let deps = (levels::by_id(containers, from)->0).dependencies(containers);
        assert(deps[deps.index_of(d)].id == id);
        assert(step(containers, from, id));
        assert(levels::in_wave(waves[k - 1], from));
        lemma_wave_leads(targets, containers, max_depth, k - 1, from)
    }
}

/// What some dependencies lead to from a target was found, no farther than there are of them.
proof fn lemma_leads_in_wave(
    targets: Seq<ContainerView>,
    containers: Seq<ContainerView>,
    max_depth: usize,
    t: int,
    n: nat,
    id: Seq<char>,
) -> (k: int)
    requires
        0 <= t < targets.len(),
        n <= max_depth,
        leads(containers, targets[t].id, id, n),
    ensures
        0 <= k <= n,
        k < levels::waves_of(targets, containers, max_depth).len(),
        levels::in_wave(levels::waves_of(targets, containers, max_depth)[k], id),
    decreases n,
{
    let waves = levels::waves_of(targets, containers, max_depth);
    lemma_waves(targets, containers, max_depth);
    if n == 0 {
        assert(router::has_id(targets, id));
        0
    } else {
        let m = choose|m: Seq<char>|
            leads(containers, targets[t].id, m, (n - 1) as nat) && #[trigger] step(
                containers,
                m,
                id,
            );
        let j = lemma_leads_in_wave(targets, containers, max_depth, t, (n - 1) as nat, m);
        let i = choose|i: int| 0 <= i < waves[j].len() && (#[trigger] waves[j][i]).0 == m;
        let deps = (levels::by_id(containers, m)->0).dependencies(containers);
        let x = choose|x: int| 0 <= x < deps.len() && (#[trigger] deps[x]).id == id;
        assert(deps.contains(deps[x]));
        assert(depends(waves[j][i].0, deps[x], containers));
        assert(complete(waves, j + 1, containers)) by {
            if j == waves.len() - 1 {
                assert(complete(waves, waves.len() as int, containers));
            } else {
                assert(complete(waves, waves.len() - 1, containers));
            }
        }
        choose|k: int|
            0 <= k <= j + 1 && k < waves.len() && levels::in_wave(#[trigger] waves[k], id)
    }
}

/// What is started is exactly the targets and what they depend on, directly or not, no more
/// dependencies away than the depth allows, as far as it is managed.
pub proof fn lemma_started_are_needed(
    targets: Seq<ContainerView>,
    containers: Seq<ContainerView>,
    max_depth: usize,
    id: Seq<char>,
)
    ensures
        is_started(levels::levels_of(targets, containers, max_depth), id) <==> router::has_id(
            containers,
            id,
        ) && exists|t: int, n: nat|
            0 <= t < targets.len() && n <= max_depth && #[trigger] leads(
                containers,
                targets[t].id,
                id,
                n,
            ),
{
    let waves = levels::waves_of(targets, containers, max_depth);
    lemma_started(targets, containers, max_depth, id);
    lemma_waves(targets, containers, max_depth);
    if levels::in_waves(waves, id) {
        let k = choose|k: int| 0 <= k < waves.len() && levels::in_wave(#[trigger] waves[k], id);
        let t = lemma_wave_leads(targets, containers, max_depth, k, id);
        assert(leads(containers, targets[t].id, id, k as nat));
    }
    if exists|t: int, n: nat|
        0 <= t < targets.len() && n <= max_depth && #[trigger] leads(
            containers,
            targets[t].id,
            id,
            n,
        ) {
        let (t, n) = choose|t: int, n: nat|
            0 <= t < targets.len() && n <= max_depth && #[trigger] leads(
                containers,
                targets[t].id,
                id,
                n,
            );
        let k = lemma_leads_in_wave(targets, containers, max_depth, t, n, id);
        assert(levels::in_waves(waves, id));
    }
}

/// The targets are started, and so is what a target depends on.
pub proof fn lemma_targets_started(
    targets: Seq<ContainerView>,
    containers: Seq<ContainerView>,
    max_depth: usize,
    t: ContainerView,
)
    requires
        router::has_id(targets, t.id),
        levels::by_id(containers, t.id) == Some(t),
    ensures
        is_started(levels::levels_of(targets, containers, max_depth), t.id),
        max_depth > 0 ==> forall|d: ContainerView| #[trigger]
            t.dependencies(containers).contains(d) ==> is_started(
                levels::levels_of(targets, containers, max_depth),
                d.id,
            ),
{
    let waves = levels::waves_of(targets, containers, max_depth);
    lemma_waves(targets, containers, max_depth);
    container::lemma_first_such(containers, |c: ContainerView| c.id == t.id);
    assert(containers.contains(t));
    assert(containers[containers.index_of(t)].id == t.id);
    assert(levels::in_wave(waves[0], t.id));
    lemma_started(targets, containers, max_depth, t.id);
    if max_depth > 0 {
        assert(complete(waves, 1, containers)) by {
            if waves.len() == 1 {
                assert(complete(waves, waves.len() as int, containers));
            } else {
                assert(complete(waves, waves.len() - 1, containers));
            }
        }
        let i = choose|i: int| 0 <= i < waves[0].len() && (#[trigger] waves[0][i]).0 == t.id;
        crate::dependencies::lemma_dependencies_managed(t, containers);
        let deps = t.dependencies(containers);
        assert forall|d: ContainerView| #[trigger] deps.contains(d) implies is_started(
            levels::levels_of(targets, containers, max_depth),
            d.id,
        ) by {
            assert(depends(waves[0][i].0, d, containers));
            let m = choose|m: int|
                0 <= m <= 1 && m < waves.len() && levels::in_wave(#[trigger] waves[m], d.id);
            assert(levels::in_waves(waves, d.id));
            assert(containers.contains(deps[deps.index_of(d)]));
            assert(containers[containers.index_of(d)].id == d.id);
            lemma_started(targets, containers, max_depth, d.id);
        }
    }
}

/// No container is started in two levels.
pub proof fn lemma_started_once(
    targets: Seq<ContainerView>,
    containers: Seq<ContainerView>,
    max_depth: usize,
    k: int,
    m: int,
    id: Seq<char>,
)
    requires
        0 <= k < m < levels::levels_of(targets, containers, max_depth).len(),
    ensures
        !(in_level(levels::levels_of(targets, containers, max_depth)[k], id) && in_level(
            levels::levels_of(targets, containers, max_depth)[m],
            id,
        )),
{
    let waves = levels::waves_of(targets, containers, max_depth);
    let all = levels::all_members(waves, containers);
    let base = levels::wave_numbers(waves, containers);
    let depths = levels::depths_of(all, base, containers);
    let r = levels::levels_of(targets, containers, max_depth);
    lemma_waves(targets, containers, max_depth);
    lemma_levels(targets, containers, max_depth);
    lemma_distinct_all(waves, containers);
    if in_level(r[k], id) && in_level(r[m], id) {
        let top = levels::deepest(depths);
        let i = choose|i: int|
            0 <= i < all.len() && (#[trigger] all[i]).0.id == id && depths[i] == top - k;
        let j = choose|j: int|
            0 <= j < all.len() && (#[trigger] all[j]).0.id == id && depths[j] == top - m;
        assert(i == j);
    }
}

/// Every member is reached from the only target, or is that target.
proof fn lemma_reached_from_target(
    t: ContainerView,
    containers: Seq<ContainerView>,
    max_depth: usize,
    i: int,
    p: int,
)
    requires
        ({
            let waves = levels::waves_of(seq![t], containers, max_depth);
            let all = levels::all_members(waves, containers);
            &&& 0 <= i < all.len()
            &&& 0 <= p < all.len()
            &&& all[i].0.id == t.id
        }),
    ensures
        ({
            let waves = levels::waves_of(seq![t], containers, max_depth);
            let all = levels::all_members(waves, containers);
            p == i || layers::reaches(levels::graph_of(all, containers), i, p)
        }),
    decreases
        levels::wave_numbers(levels::waves_of(seq![t], containers, max_depth), containers)[p],
{
    let waves = levels::waves_of(seq![t], containers, max_depth);
    let all = levels::all_members(waves, containers);
    let base = levels::wave_numbers(waves, containers);
    let g = levels::graph_of(all, containers);
    lemma_waves(seq![t], containers, max_depth);
    lemma_all_members(waves, containers);
    lemma_distinct_all(waves, containers);
    assert(is_placed(waves, containers, p));
    let id = all[p].0.id;
    let k = base[p] as int;
    if k == 0 {
        assert(levels::in_wave(waves[0], id));
        assert(router::has_id(seq![t], id));
        assert(id == t.id);
    } else {
        assert(levels::in_wave(waves[k], id));
        assert(found_from(id, waves[k - 1], containers));
        let (x, d) = choose|x: int, d: ContainerView|
            0 <= x < waves[k - 1].len() && #[trigger] depends(
                (#[trigger] waves[k - 1][x]).0,
                d,
                containers,
            ) && d.id == id;
        let from = waves[k - 1][x].0;
        let c = levels::by_id(containers, from)->0;
        container::lemma_first_such(containers, |y: ContainerView| y.id == from);
        assert(containers.contains(c));
        assert(containers[containers.index_of(c)].id == from);
        assert(levels::in_wave(waves[k - 1], from));
        assert(has_place(waves, containers, from, k - 1));
        let q = choose|q: int|
            0 <= q < all.len() && (#[trigger] all[q]).0.id == from && base[q] == k - 1;
        assert(is_placed(waves, containers, q));
        assert(all[q].0 == c);
        let deps = c.dependencies(containers);
        assert(deps[deps.index_of(d)].id == id);
        assert(layers::edge(g, q, p));
        lemma_reached_from_target(t, containers, max_depth, i, q);
        layers::lemma_edge_reaches(g, q, p);
    }
}

/// Where there is one target, the last level is that target alone, and all that it depends on comes
/// before.
pub proof fn lemma_target_last(
    t: ContainerView,
    containers: Seq<ContainerView>,
    max_depth: usize,
    id: Seq<char>,
)
    requires
        router::has_id(containers, t.id),
    ensures
        in_level(levels::levels_of(seq![t], containers, max_depth).last(), id) <==> id == t.id,
{
    let waves = levels::waves_of(seq![t], containers, max_depth);
    let all = levels::all_members(waves, containers);
    let base = levels::wave_numbers(waves, containers);
    let depths = levels::depths_of(all, base, containers);
    let g = levels::graph_of(all, containers);
    let r = levels::levels_of(seq![t], containers, max_depth);
    lemma_waves(seq![t], containers, max_depth);
    lemma_levels(seq![t], containers, max_depth);
    lemma_all_members(waves, containers);
    let last = r.len() - 1;
    assert(in_level(r[last], id) <==> in_level(r.last(), id));
    if in_level(r[last], id) {
        let j = choose|j: int|
            0 <= j < all.len() && (#[trigger] all[j]).0.id == id && depths[j] == levels::deepest(
                depths,
            ) - last;
        assert(is_placed(waves, containers, j));
        layers::lemma_depth(g, base, j);
        assert(base[j] == 0);
        assert(levels::in_wave(waves[0], id));
        assert(router::has_id(seq![t], id));
    }
    if id == t.id {
        assert(seq![t][0].id == id);
        assert(router::has_id(seq![t], id));
        assert(levels::in_wave(waves[0], id));
        assert(has_place(waves, containers, id, 0));
        let i = choose|i: int| 0 <= i < all.len() && (#[trigger] all[i]).0.id == id && base[i] == 0;
        layers::lemma_depth(g, base, i);
        assert(depths[i] == 0) by {
            if depths[i] != 0 {
                let p = choose|p: int| #[trigger] layers::precedes(g, p, i);
                lemma_reached_from_target(t, containers, max_depth, i, p);
                if p == i {
                    layers::lemma_edge_reaches(g, i, i);
                }
            }
        }
        assert(in_level(r[last], id));
    }
}

/// No container stands twice in one level.
pub proof fn lemma_once_in_level(
    targets: Seq<ContainerView>,
    containers: Seq<ContainerView>,
    max_depth: usize,
    k: int,
    i: int,
    j: int,
)
    requires
        0 <= k < levels::levels_of(targets, containers, max_depth).len(),
        0 <= i < j < levels::levels_of(targets, containers, max_depth)[k].len(),
    ensures
        levels::levels_of(targets, containers, max_depth)[k][i].0.id != levels::levels_of(
            targets,
            containers,
            max_depth,
        )[k][j].0.id,
{
    let waves = levels::waves_of(targets, containers, max_depth);
    let all = levels::all_members(waves, containers);
    let depths = levels::depths_of(all, levels::wave_numbers(waves, containers), containers);
    lemma_waves(targets, containers, max_depth);
    lemma_distinct_all(waves, containers);
    lemma_distinct_depth(all, depths, (levels::deepest(depths) - k) as nat);
}

/// No two members of one depth have one id, where no two of all have.
proof fn lemma_distinct_depth(all: Seq<levels::Member>, depths: Seq<nat>, d: nat)
    requires
        all.len() == depths.len(),
        forall|i: int, j: int|
            0 <= i < j < all.len() ==> (#[trigger] all[i]).0.id != (#[trigger] all[j]).0.id,
    ensures
        ({
            let level = levels::at_depth(all, depths, d);
            forall|i: int, j: int|
                0 <= i < j < level.len() ==> (#[trigger] level[i]).0.id != (#[trigger] level[j]).0.id
        }),
    decreases all.len(),
{
    if all.len() > 0 {
        let init = all.drop_last();
        let ds = depths.drop_last();
        assert forall|i: int, j: int| 0 <= i < j < init.len() implies (#[trigger] init[i]).0.id != (
        #[trigger] init[j]).0.id by {
            assert(all[i].0.id != all[j].0.id);
        }
        lemma_distinct_depth(init, ds, d);
        let before = levels::at_depth(init, ds, d);
        let after = levels::at_depth(all, depths, d);
        assert forall|i: int, j: int| 0 <= i < j < after.len() implies (#[trigger] after[i]).0.id
            != (#[trigger] after[j]).0.id by {
            if j < before.len() {
                assert(before[i].0.id != before[j].0.id);
            } else {
                let id = before[i].0.id;
                lemma_at_depth(init, ds, d, id);
                assert(in_level(before, id));
                let q = choose|q: int|
                    0 <= q < init.len() && (#[trigger] init[q]).0.id == id && ds[q] == d;
                assert(all[q].0.id != all[all.len() - 1].0.id);
            }
        }
    }
}

/// No container is started earlier than it has to be: one that is on no circle stands in the last
/// level, or in the level right before one that depends on it.
pub proof fn lemma_right_before(
    targets: Seq<ContainerView>,
    containers: Seq<ContainerView>,
    max_depth: usize,
    k: int,
    id: Seq<char>,
)
    requires
        0 <= k < levels::levels_of(targets, containers, max_depth).len() - 1,
        in_level(levels::levels_of(targets, containers, max_depth)[k], id),
        forall|n: nat| n > 0 ==> !#[trigger] leads(containers, id, id, n),
    ensures
        exists|p: ContainerView|
            containers.contains(p) && #[trigger] levels::needs(p, id, containers) && in_level(
                levels::levels_of(targets, containers, max_depth)[k + 1],
                p.id,
            ),
{
    let waves = levels::waves_of(targets, containers, max_depth);
    let all = levels::all_members(waves, containers);
    let base = levels::wave_numbers(waves, containers);
    let depths = levels::depths_of(all, base, containers);
    let g = levels::graph_of(all, containers);
    let r = levels::levels_of(targets, containers, max_depth);
    let top = levels::deepest(depths);
    lemma_waves(targets, containers, max_depth);
    lemma_levels(targets, containers, max_depth);
    lemma_all_members(waves, containers);
    assert(in_level(r[k], id));
    let x = choose|x: int|
        0 <= x < all.len() && (#[trigger] all[x]).0.id == id && depths[x] == top - k;
    assert forall|i: int| 0 <= i < all.len() implies levels::by_id(
        containers,
        (#[trigger] all[i]).0.id,
    ) == Some(all[i].0) by {
        assert(is_placed(waves, containers, i));
    }
    layers::lemma_depth(g, base, x);
    let p = if exists|p: int| #[trigger]
        layers::precedes(g, p, x) && depths[x] == layers::depth(g, base, p) + 1 {
        choose|p: int| #[trigger]
            layers::precedes(g, p, x) && depths[x] == layers::depth(g, base, p) + 1
    } else {
        let n = base[x] as int;
        assert(is_placed(waves, containers, x));
        assert(found_from(id, waves[n - 1], containers));
        let (y, d) = choose|y: int, d: ContainerView|
            0 <= y < waves[n - 1].len() && #[trigger] depends(
                (#[trigger] waves[n - 1][y]).0,
                d,
                containers,
            ) && d.id == id;
        let from = waves[n - 1][y].0;
        let c = levels::by_id(containers, from)->0;
        container::lemma_first_such(containers, |z: ContainerView| z.id == from);
        assert(containers[containers.index_of(c)].id == from);
        assert(levels::in_wave(waves[n - 1], from));
        assert(has_place(waves, containers, from, n - 1));
        let q = choose|q: int|
            0 <= q < all.len() && (#[trigger] all[q]).0.id == from && base[q] == n - 1;
        let deps = c.dependencies(containers);
        assert(deps[deps.index_of(d)].id == id);
        assert(layers::edge(g, q, x));
        if layers::reaches(g, x, q) {
            let m = choose|m: nat| m > 0 && #[trigger] layers::leads(g, x, q, m);
            assert(layers::leads(g, x, x, m + 1));
            lemma_leads(all, containers, x, x, m + 1);
        }
        assert(layers::precedes(g, q, x));
        layers::lemma_depth(g, base, q);
        q
    };
    assert(0 <= p < all.len());
    assert(depths[p] == top - (k + 1));
    assert(in_level(r[k + 1], all[p].0.id));
    container::lemma_first_such(containers, |z: ContainerView| z.id == all[p].0.id);
    assert(levels::needs(all[p].0, id, containers));
}

} // verus!
