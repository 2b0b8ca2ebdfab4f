//! The order in which containers and what they depend on are started.

use crate::container;
use crate::container::{ContainerView, Dependency, DependencyView, ManagedContainer};
use crate::layers;
use crate::router;
use crate::text;
use vstd::prelude::*;

verus! {

/// A container to be started, by id, and the condition that it is waited for with.
pub type Found = (Seq<char>, Option<Seq<char>>);

/// Containers that were found at one depth.
pub type Wave = Seq<Found>;

/// A container to be started, and the condition that it is waited for with.
pub type Member = (ContainerView, Option<Seq<char>>);

/// The container with this id.
pub open spec fn by_id(containers: Seq<ContainerView>, id: Seq<char>) -> Option<ContainerView> {
    container::first_such(containers, |c: ContainerView| c.id == id)
}

/// The condition of the first dependency on `service`.
pub open spec fn condition_on(
    deps: Seq<DependencyView>,
    service: Option<Seq<char>>,
) -> Option<Seq<char>>
    decreases deps.len(),
{
    if deps.len() == 0 {
        None
    } else if service == Some(deps[0].service) {
        Some(deps[0].condition)
    } else {
        condition_on(deps.skip(1), service)
    }
}

/// The id was found at this depth.
pub open spec fn in_wave(wave: Wave, id: Seq<char>) -> bool {
    exists|i: int| 0 <= i < wave.len() && (#[trigger] wave[i]).0 == id
}

/// The id was found at some depth.
pub open spec fn in_waves(waves: Seq<Wave>, id: Seq<char>) -> bool {
    exists|k: int| 0 <= k < waves.len() && in_wave(#[trigger] waves[k], id)
}

/// `wave` with `f`, unless its id is there or was found before.
pub open spec fn with_found(waves: Seq<Wave>, wave: Wave, f: Found) -> Wave {
    if in_waves(waves, f.0) || in_wave(wave, f.0) {
        wave
    } else {
        wave.push(f)
    }
}

/// `wave` with the dependencies `deps` of `c`.
pub open spec fn with_dependencies(
    waves: Seq<Wave>,
    wave: Wave,
    c: ContainerView,
    deps: Seq<ContainerView>,
) -> Wave
    decreases deps.len(),
{
    if deps.len() == 0 {
        wave
    } else {
        let d = deps.last();
        with_found(
            waves,
            with_dependencies(waves, wave, c, deps.drop_last()),
            (d.id, condition_on(c.depends_on, d.compose_service)),
        )
    }
}

/// What the containers of `from` depend on and was not found before.
pub open spec fn next_wave(
    waves: Seq<Wave>,
    from: Wave,
    containers: Seq<ContainerView>,
) -> Wave
    decreases from.len(),
{
    if from.len() == 0 {
        Seq::empty()
    } else {
        let wave = next_wave(waves, from.drop_last(), containers);
        match by_id(containers, from.last().0) {
            Some(c) => with_dependencies(waves, wave, c, c.dependencies(containers)),
            None => wave,
        }
    }
}

/// The waves from `waves` on, at most `depth` more, as long as something new is found.
pub open spec fn waves_from(
    waves: Seq<Wave>,
    containers: Seq<ContainerView>,
    depth: nat,
) -> Seq<Wave>
    decreases depth,
{
    if depth == 0 {
        waves
    } else {
        let wave = next_wave(waves, waves.last(), containers);
        if wave.len() == 0 {
            waves
        } else {
            waves_from(waves.push(wave), containers, (depth - 1) as nat)
        }
    }
}

/// The targets, each id once.
pub open spec fn first_wave(targets: Seq<ContainerView>) -> Wave
    decreases targets.len(),
{
    if targets.len() == 0 {
        Seq::empty()
    } else {
        with_found(
            Seq::empty(),
            first_wave(targets.drop_last()),
            (targets.last().id, None),
        )
    }
}

/// The containers of a wave; ids without a container are left out.
pub open spec fn members(wave: Wave, containers: Seq<ContainerView>) -> Seq<Member> {
    wave.filter_map(|f: Found| member(f, containers))
}

/// The container of a found id.
pub open spec fn member(f: Found, containers: Seq<ContainerView>) -> Option<Member> {
    match by_id(containers, f.0) {
        Some(c) => Some((c, f.1)),
        None => None,
    }
}

/// The waves of the targets: the targets, what they depend on, what those depend on, and so on.
pub open spec fn waves_of(
    targets: Seq<ContainerView>,
    containers: Seq<ContainerView>,
    max_depth: usize,
) -> Seq<Wave> {
    waves_from(seq![first_wave(targets)], containers, max_depth as nat)
}

/// The members of all waves, wave by wave.
pub open spec fn all_members(waves: Seq<Wave>, containers: Seq<ContainerView>) -> Seq<Member>
    decreases waves.len(),
{
    if waves.len() == 0 {
        Seq::empty()
    } else {
        all_members(waves.drop_last(), containers) + members(waves.last(), containers)
    }
}

/// The number of the wave that each of the members stands in: how far it is from the targets, by
/// the shortest way.
pub open spec fn wave_numbers(waves: Seq<Wave>, containers: Seq<ContainerView>) -> Seq<nat>
    decreases waves.len(),
{
    if waves.len() == 0 {
        Seq::empty()
    } else {
        wave_numbers(waves.drop_last(), containers) + Seq::new(
            members(waves.last(), containers).len(),
            |i: int| (waves.len() - 1) as nat,
        )
    }
}

/// `c` depends on the container with this id.
pub open spec fn needs(c: ContainerView, id: Seq<char>, containers: Seq<ContainerView>) -> bool {
    router::has_id(c.dependencies(containers), id)
}

/// Which of the members depends on which.
pub open spec fn graph_of(all: Seq<Member>, containers: Seq<ContainerView>) -> layers::Graph {
    Seq::new(
        all.len(),
        |i: int| Seq::new(all.len(), |j: int| needs(all[i].0, all[j].0.id, containers)),
    )
}

/// The depths of the members: as far from the targets as the longest way of dependencies is, ways
/// around a cycle left aside.
pub open spec fn depths_of(
    all: Seq<Member>,
    base: Seq<nat>,
    containers: Seq<ContainerView>,
) -> Seq<nat> {
    Seq::new(all.len(), |i: int| layers::depth(graph_of(all, containers), base, i))
}

/// The largest of the depths.
pub open spec fn deepest(depths: Seq<nat>) -> nat
    decreases depths.len(),
{
    if depths.len() == 0 {
        0
    } else if depths.last() > deepest(depths.drop_last()) {
        depths.last()
    } else {
        deepest(depths.drop_last())
    }
}

/// The members at one depth.
pub open spec fn at_depth(all: Seq<Member>, depths: Seq<nat>, d: nat) -> Seq<Member>
    decreases all.len(),
{
    if all.len() == 0 {
        Seq::empty()
    } else {
        let before = at_depth(all.drop_last(), depths.drop_last(), d);
        if depths.last() == d {
            before.push(all.last())
        } else {
            before
        }
    }
}

/// The members depth by depth, the deepest first.
pub open spec fn by_depth(all: Seq<Member>, depths: Seq<nat>) -> Seq<Seq<Member>> {
    Seq::new(
        deepest(depths) + 1,
        |k: int| at_depth(all, depths, (deepest(depths) - k) as nat),
    )
}

/// The levels to start, one after the other: the members of all waves, each after what it depends
/// on.
pub open spec fn levels_of(
    targets: Seq<ContainerView>,
    containers: Seq<ContainerView>,
    max_depth: usize,
) -> Seq<Seq<Member>> {
    let waves = waves_of(targets, containers, max_depth);
    let all = all_members(waves, containers);
    by_depth(all, depths_of(all, wave_numbers(waves, containers), containers))
}

// ---------------------------------------------------------------------------------------------
// Finding the levels
// ---------------------------------------------------------------------------------------------

/// The position of the container with this id.
pub fn find_id(containers: &[ManagedContainer], id: &str) -> (r: Option<usize>)
    ensures
        match r {
            Some(i) => i < containers@.len() && by_id(containers.deep_view(), id@) == Some(
                containers@[i as int]@,
            ),
            None => by_id(containers.deep_view(), id@) is None,
        },
{
    let ghost p = |c: ContainerView| c.id == id@;
    let mut i: usize = 0;
    while i < containers.len()
        invariant
            i <= containers@.len(),
            p == (|c: ContainerView| c.id == id@),
            forall|j: int| 0 <= j < i ==> !p(#[trigger] containers.deep_view()[j]),
        decreases containers.len() - i,
    {
        assert(containers.deep_view()[i as int] == containers@[i as int]@);
        if text::equal(containers[i].id.as_str(), id) {
            proof {
                container::lemma_first_such_at(containers.deep_view(), p, i as int);
            }
            return Some(i);
        }
        i = i + 1;
    }
    proof {
        container::lemma_first_such_none(containers.deep_view(), p);
    }
    None
}

/// The condition of the first dependency on `service`.
fn find_condition(deps: &Vec<Dependency>, service: &Option<String>) -> (r: Option<String>)
    ensures
        r.deep_view() == condition_on(deps.deep_view(), service.deep_view()),
{
    let ghost all = deps.deep_view();
    let mut i: usize = 0;
    assert(all.skip(0) == all);
    while i < deps.len()
        invariant
            i <= deps@.len(),
            all == deps.deep_view(),
            condition_on(all, service.deep_view()) == condition_on(
                all.skip(i as int),
                service.deep_view(),
            ),
        decreases deps.len() - i,
    {
        assert(all.skip(i as int)[0] == deps@[i as int]@);
        if container::is_text(service, deps[i].service.as_str()) {
            return Some(deps[i].condition.clone());
        }
        assert(all.skip(i as int).skip(1) == all.skip(i + 1));
        i = i + 1;
    }
    None
}

/// Whether the id was found at this depth.
fn wave_has(wave: &Vec<(String, Option<String>)>, id: &str) -> (r: bool)
    ensures
        r == in_wave(wave.deep_view(), id@),
{
    let mut i: usize = 0;
    while i < wave.len()
        invariant
            i <= wave@.len(),
            forall|j: int| 0 <= j < i ==> (#[trigger] wave.deep_view()[j]).0 != id@,
        decreases wave.len() - i,
    {
        assert(wave.deep_view()[i as int].0 == wave@[i as int].0@);
        if text::equal(wave[i].0.as_str(), id) {
            return true;
        }
        i = i + 1;
    }
    false
}

/// Whether the id was found at some depth.
fn waves_have(waves: &Vec<Vec<(String, Option<String>)>>, id: &str) -> (r: bool)
    ensures
        r == in_waves(waves.deep_view(), id@),
{
    let mut k: usize = 0;
    while k < waves.len()
        invariant
            k <= waves@.len(),
            forall|j: int| 0 <= j < k ==> !in_wave(#[trigger] waves.deep_view()[j], id@),
        decreases waves.len() - k,
    {
        assert(waves.deep_view()[k as int] == waves@[k as int].deep_view());
        if wave_has(&waves[k], id) {
            return true;
        }
        k = k + 1;
    }
    false
}

/// Adds a found container, unless its id is there or was found before.
fn push_found(
    waves: &Vec<Vec<(String, Option<String>)>>,
    wave: &mut Vec<(String, Option<String>)>,
    id: &str,
    condition: Option<String>,
)
    ensures
        final(wave).deep_view() == with_found(
            waves.deep_view(),
            old(wave).deep_view(),
            (id@, condition.deep_view()),
        ),
{
    let ghost before = wave.deep_view();
    if !waves_have(waves, id) && !wave_has(wave, id) {
        let ghost f = (id@, condition.deep_view());
        wave.push((id.to_string(), condition));
        assert(wave.deep_view() == before.push(f));
    }
}

/// The dependencies of a container, and the services among them that no container provides.
pub fn resolve_deps_logged(c: &ManagedContainer, containers: &[ManagedContainer]) -> (r: (
    Vec<ManagedContainer>,
    Vec<String>,
))
    ensures
        r.0.deep_view() == c@.dependencies(containers.deep_view()),
        r.1.deep_view() == c@.depends_on.filter_map(
            |d: DependencyView| missing(c@, d, containers.deep_view()),
        ),
{
    let found: Vec<ManagedContainer> = c.resolve_dependencies(containers);
    let ghost all = c@.depends_on;
    let ghost f = |d: DependencyView| missing(c@, d, containers.deep_view());
    let mut lost: Vec<String> = Vec::new();
    let mut i: usize = 0;
    proof {
        reveal(Seq::filter_map);
        assert(all.take(0) == Seq::<DependencyView>::empty());
        assert(lost.deep_view() == all.take(0).filter_map(f));
    }
    while i < c.depends_on.len()
        invariant
            i <= c.depends_on@.len(),
            all == c@.depends_on,
            f == (|d: DependencyView| missing(c@, d, containers.deep_view())),
            lost.deep_view() == all.take(i as int).filter_map(f),
        decreases c.depends_on.len() - i,
    {
        let ghost before = lost.deep_view();
        proof {
            all.lemma_filter_map_take_succ(f, i as int);
            assert(all[i as int] == c.depends_on@[i as int]@);
        }
        let service: &str = c.depends_on[i].service.as_str();
        match c.find_dependency(service, containers) {
            Some(_) => {},
            None => {
                lost.push(service.to_string());
                assert(lost.deep_view() == before.push(service@));
            },
        }
        i = i + 1;
    }
    assert(all.take(all.len() as int) == all);
    (found, lost)
}

/// The service of a dependency that no container provides.
pub open spec fn missing(
    c: ContainerView,
    d: DependencyView,
    containers: Seq<ContainerView>,
) -> Option<Seq<char>> {
    match c.dependency(d.service, containers) {
        Some(_) => None,
        None => Some(d.service),
    }
}

/// Adds what `c` depends on.
fn push_dependencies(
    waves: &Vec<Vec<(String, Option<String>)>>,
    wave: &mut Vec<(String, Option<String>)>,
    c: &ManagedContainer,
    containers: &[ManagedContainer],
)
    ensures
        final(wave).deep_view() == with_dependencies(
            waves.deep_view(),
            old(wave).deep_view(),
            c@,
            c@.dependencies(containers.deep_view()),
        ),
{
    let deps: Vec<ManagedContainer> = c.resolve_dependencies(containers);
    let ghost all = deps.deep_view();
    let ghost start = wave.deep_view();
    let mut i: usize = 0;
    assert(all.take(0) == Seq::<ContainerView>::empty());
    while i < deps.len()
        invariant
            i <= deps@.len(),
            all == deps.deep_view(),
            wave.deep_view() == with_dependencies(
                waves.deep_view(),
                start,
                c@,
                all.take(i as int),
            ),
        decreases deps.len() - i,
    {
        proof {
            let next = all.take(i + 1);
            assert(next.drop_last() == all.take(i as int));
            assert(next.last() == deps@[i as int]@);
        }
        let condition: Option<String> = find_condition(&c.depends_on, &deps[i].compose_service);
        push_found(waves, wave, deps[i].id.as_str(), condition);
        i = i + 1;
    }
    assert(all.take(all.len() as int) == all);
}

/// Finds what the last wave depends on.
fn find_next(
    waves: &Vec<Vec<(String, Option<String>)>>,
    containers: &[ManagedContainer],
) -> (r: Vec<(String, Option<String>)>)
    requires
        waves@.len() > 0,
    ensures
        r.deep_view() == next_wave(
            waves.deep_view(),
            waves.deep_view().last(),
            containers.deep_view(),
        ),
{
    let from: &Vec<(String, Option<String>)> = &waves[waves.len() - 1];
    let ghost all = from.deep_view();
    assert(all == waves.deep_view().last());
    let mut wave: Vec<(String, Option<String>)> = Vec::new();
    let mut i: usize = 0;
    proof {
        assert(all.take(0) == Seq::<Found>::empty());
        assert(wave.deep_view() == Seq::<Found>::empty());
    }
    while i < from.len()
        invariant
            i <= from@.len(),
            all == from.deep_view(),
            wave.deep_view() == next_wave(
                waves.deep_view(),
                all.take(i as int),
                containers.deep_view(),
            ),
        decreases from.len() - i,
    {
        proof {
            let next = all.take(i + 1);
            assert(next.drop_last() == all.take(i as int));
            assert(next.last().0 == from@[i as int].0@);
        }
        match find_id(containers, from[i].0.as_str()) {
            Some(k) => {
                push_dependencies(waves, &mut wave, &containers[k], containers);
            },
            None => {},
        }
        i = i + 1;
    }
    assert(all.take(all.len() as int) == all);
    wave
}

/// The containers of a wave.
fn find_members(
    wave: &Vec<(String, Option<String>)>,
    containers: &[ManagedContainer],
) -> (r: Vec<(ManagedContainer, Option<String>)>)
    ensures
        r.deep_view() == members(wave.deep_view(), containers.deep_view()),
{
    let ghost all = wave.deep_view();
    let ghost f = |x: Found| member(x, containers.deep_view());
    let mut r: Vec<(ManagedContainer, Option<String>)> = Vec::new();
    let mut i: usize = 0;
    proof {
        reveal(Seq::filter_map);
        assert(all.take(0) == Seq::<Found>::empty());
        assert(r.deep_view() == all.take(0).filter_map(f));
    }
    while i < wave.len()
        invariant
            i <= wave@.len(),
            all == wave.deep_view(),
            f == (|x: Found| member(x, containers.deep_view())),
            r.deep_view() == all.take(i as int).filter_map(f),
        decreases wave.len() - i,
    {
        let ghost before = r.deep_view();
        proof {
            all.lemma_filter_map_take_succ(f, i as int);
            assert(all[i as int] == (wave@[i as int].0@, wave@[i as int].1.deep_view()));
        }
        match find_id(containers, wave[i].0.as_str()) {
            Some(k) => {
                r.push((containers[k].clone(), container::copy_text(&wave[i].1)));
                assert(r.deep_view() == before.push(
                    (containers@[k as int]@, wave@[i as int].1.deep_view()),
                ));
            },
            None => {},
        }
        i = i + 1;
    }
    assert(all.take(all.len() as int) == all);
    r
}

/// The targets, each id once.
fn find_first(targets: &[ManagedContainer]) -> (r: Vec<(String, Option<String>)>)
    ensures
        r.deep_view() == first_wave(targets.deep_view()),
{
    let ghost all = targets.deep_view();
    let none: Vec<Vec<(String, Option<String>)>> = Vec::new();
    let mut wave: Vec<(String, Option<String>)> = Vec::new();
    let mut i: usize = 0;
    proof {
        assert(none.deep_view() == Seq::<Wave>::empty());
        assert(all.take(0) == Seq::<ContainerView>::empty());
        assert(wave.deep_view() == Seq::<Found>::empty());
    }
    while i < targets.len()
        invariant
            i <= targets@.len(),
            all == targets.deep_view(),
            none.deep_view() == Seq::<Wave>::empty(),
            wave.deep_view() == first_wave(all.take(i as int)),
        decreases targets.len() - i,
    {
        proof {
            let next = all.take(i + 1);
            assert(next.drop_last() == all.take(i as int));
            assert(next.last() == targets@[i as int]@);
        }
        push_found(&none, &mut wave, targets[i].id.as_str(), None);
        i = i + 1;
    }
    assert(all.take(all.len() as int) == all);
    wave
}

/// Finds the targets, what they depend on, what those depend on, and so on.
fn find_waves(
    targets: &[ManagedContainer],
    containers: &[ManagedContainer],
    max_depth: usize,
) -> (waves: Vec<Vec<(String, Option<String>)>>)
    ensures
        waves.deep_view() == waves_of(targets.deep_view(), containers.deep_view(), max_depth),
{
    let ghost all = containers.deep_view();
    let ghost goal = waves_of(targets.deep_view(), all, max_depth);
    let mut waves: Vec<Vec<(String, Option<String>)>> = Vec::new();
    waves.push(find_first(targets));
    assert(waves.deep_view() == seq![first_wave(targets.deep_view())]);
    let mut left: usize = max_depth;
    while left > 0
        invariant_except_break
            waves_from(waves.deep_view(), all, left as nat) == goal,
        invariant
            waves@.len() > 0,
            all == containers.deep_view(),
        ensures
            waves.deep_view() == goal,
        decreases left,
    {
        let ghost before = waves.deep_view();
        let wave: Vec<(String, Option<String>)> = find_next(&waves, containers);
        assert(wave.deep_view().len() == wave@.len());
        if wave.len() == 0 {
            break;
        }
        let ghost next = wave.deep_view();
        waves.push(wave);
        assert(waves.deep_view() == before.push(next));
        left = left - 1;
    }
    waves
}

/// Finds the members of all waves, and the numbers of their waves.
fn gather(waves: &Vec<Vec<(String, Option<String>)>>, containers: &[ManagedContainer]) -> (r: (
    Vec<(ManagedContainer, Option<String>)>,
    Vec<u128>,
))
    ensures
        r.0.deep_view() == all_members(waves.deep_view(), containers.deep_view()),
        layers::as_nats(r.1@) == wave_numbers(waves.deep_view(), containers.deep_view()),
        r.0@.len() == r.1@.len(),
        forall|i: int| 0 <= i < r.1@.len() ==> #[trigger] r.1@[i] <= usize::MAX,
{
    let ghost all = waves.deep_view();
    let ghost cs = containers.deep_view();
    let mut found: Vec<(ManagedContainer, Option<String>)> = Vec::new();
    let mut numbers: Vec<u128> = Vec::new();
    let mut k: usize = 0;
    proof {
        assert(all.take(0) == Seq::<Wave>::empty());
        assert(found.deep_view() == all_members(all.take(0), cs));
        assert(layers::as_nats(numbers@) == wave_numbers(all.take(0), cs));
    }
    while k < waves.len()
        invariant
            k <= waves@.len(),
            all == waves.deep_view(),
            cs == containers.deep_view(),
            found.deep_view() == all_members(all.take(k as int), cs),
            layers::as_nats(numbers@) == wave_numbers(all.take(k as int), cs),
            found@.len() == numbers@.len(),
            forall|i: int| 0 <= i < numbers@.len() ==> #[trigger] numbers@[i] <= usize::MAX,
        decreases waves.len() - k,
    {
        let ghost found0 = found.deep_view();
        let ghost numbers0 = layers::as_nats(numbers@);
        let mut level: Vec<(ManagedContainer, Option<String>)> = find_members(
            &waves[k],
            containers,
        );
        let ghost here = level.deep_view();
        let n: usize = level.len();
        let ghost count = Seq::new(n as nat, |i: int| k as nat);
        proof {
            let next = all.take(k + 1);
            assert(next.drop_last() == all.take(k as int));
            assert(next.last() == waves@[k as int].deep_view());
            assert(here.len() == n);
        }
        let mut i: usize = 0;
        assert(layers::as_nats(numbers@) == numbers0 + count.take(0));
        while i < n
            invariant
                i <= n,
                count == Seq::new(n as nat, |i: int| k as nat),
                numbers@.len() == numbers0.len() + i,
                layers::as_nats(numbers@) == numbers0 + count.take(i as int),
                forall|j: int| 0 <= j < numbers@.len() ==> #[trigger] numbers@[j] <= usize::MAX,
            decreases n - i,
        {
            let ghost before = layers::as_nats(numbers@);
            numbers.push(k as u128);
            assert(layers::as_nats(numbers@) == before.push(k as nat));
            assert(count.take(i + 1) == count.take(i as int).push(k as nat));
            i = i + 1;
        }
        assert(count.take(n as int) == count);
        assert(count == Seq::new(members(all.take(k + 1).last(), cs).len(), |i: int|
            (all.take(k + 1).len() - 1) as nat));
        found.append(&mut level);
        assert(found.deep_view() == found0 + here);
        k = k + 1;
    }
    assert(all.take(all.len() as int) == all);
    (found, numbers)
}

/// Tells which of the members depends on which.
fn find_graph(all: &Vec<(ManagedContainer, Option<String>)>, containers: &[ManagedContainer]) -> (r:
    Vec<Vec<bool>>)
    ensures
        r.deep_view() == graph_of(all.deep_view(), containers.deep_view()),
{
    let ghost cs = containers.deep_view();
    let ghost goal = graph_of(all.deep_view(), cs);
    let n: usize = all.len();
    let mut r: Vec<Vec<bool>> = Vec::new();
    let mut i: usize = 0;
    while i < n
        invariant
            i <= n == all@.len(),
            cs == containers.deep_view(),
            goal == graph_of(all.deep_view(), cs),
            r@.len() == i,
            forall|k: int| 0 <= k < i ==> (#[trigger] r@[k])@ == goal[k],
        decreases n - i,
    {
        let deps: Vec<ManagedContainer> = all[i].0.resolve_dependencies(containers);
        assert(all.deep_view()[i as int].0 == all@[i as int].0@);
        let mut row: Vec<bool> = Vec::new();
        let mut j: usize = 0;
        while j < n
            invariant
                i < n,
                j <= n == all@.len(),
                cs == containers.deep_view(),
                goal == graph_of(all.deep_view(), cs),
                all.deep_view()[i as int].0 == all@[i as int].0@,
                deps.deep_view() == all@[i as int].0@.dependencies(cs),
                row@ == goal[i as int].take(j as int),
            decreases n - j,
        {
            assert(all.deep_view()[j as int].0 == all@[j as int].0@);
            let here: bool = router::contains_id(&deps, all[j].0.id.as_str());
            row.push(here);
            assert(goal[i as int].take(j + 1) == goal[i as int].take(j as int).push(here));
            j = j + 1;
        }
        assert(goal[i as int].take(n as int) == goal[i as int]);
        r.push(row);
        i = i + 1;
    }
    proof {
        assert forall|k: int| 0 <= k < goal.len() implies #[trigger] r.deep_view()[k] == goal[k] by {
            assert(r.deep_view()[k] == r@[k].deep_view());
            assert(r@[k].deep_view() == r@[k]@);
        }
        assert(r.deep_view() == goal);
    }
    r
}

/// Finds the largest of the depths.
fn find_deepest(depths: &Vec<u128>) -> (r: u128)
    ensures
        r == deepest(layers::as_nats(depths@)),
{
    let ghost all = layers::as_nats(depths@);
    let mut r: u128 = 0;
    let mut i: usize = 0;
    assert(all.take(0) == Seq::<nat>::empty());
    while i < depths.len()
        invariant
            i <= depths@.len(),
            all == layers::as_nats(depths@),
            r == deepest(all.take(i as int)),
        decreases depths.len() - i,
    {
        proof {
            let next = all.take(i + 1);
            assert(next.drop_last() == all.take(i as int));
            assert(next.last() == depths@[i as int]);
        }
        if depths[i] > r {
            r = depths[i];
        }
        i = i + 1;
    }
    assert(all.take(all.len() as int) == all);
    r
}

/// Finds the members at one depth.
fn find_level(all: &Vec<(ManagedContainer, Option<String>)>, depths: &Vec<u128>, d: u128) -> (r: Vec<
    (ManagedContainer, Option<String>),
>)
    requires
        all@.len() == depths@.len(),
    ensures
        r.deep_view() == at_depth(all.deep_view(), layers::as_nats(depths@), d as nat),
{
    let ghost v = all.deep_view();
    let ghost ds = layers::as_nats(depths@);
    let mut r: Vec<(ManagedContainer, Option<String>)> = Vec::new();
    let mut i: usize = 0;
    proof {
        assert(v.take(0) == Seq::<Member>::empty());
        assert(r.deep_view() == at_depth(v.take(0), ds.take(0), d as nat));
    }
    while i < all.len()
        invariant
            i <= all@.len() == depths@.len(),
            v == all.deep_view(),
            ds == layers::as_nats(depths@),
            r.deep_view() == at_depth(v.take(i as int), ds.take(i as int), d as nat),
        decreases all.len() - i,
    {
        let ghost before = r.deep_view();
        let ghost m = (all@[i as int].0@, all@[i as int].1.deep_view());
        proof {
            assert(v.take(i + 1).drop_last() == v.take(i as int));
            assert(ds.take(i + 1).drop_last() == ds.take(i as int));
            assert(v.take(i + 1).last() == m);
            assert(ds.take(i + 1).last() == depths@[i as int]);
        }
        if depths[i] == d {
            r.push((all[i].0.clone(), container::copy_text(&all[i].1)));
            assert(r.deep_view() == before.push(m));
        }
        i = i + 1;
    }
    proof {
        assert(v.take(v.len() as int) == v);
        assert(ds.take(v.len() as int) == ds);
    }
    r
}

/// Puts the targets and what they depend on into levels to be started one after the other, what is
/// farthest from the targets first. The containers of one level are started side by side: none of
/// them depends on another, unless they depend on each other in a circle.
pub fn dependency_levels_multi(
    targets: &[ManagedContainer],
    containers: &[ManagedContainer],
    max_depth: usize,
) -> (r: Vec<Vec<(ManagedContainer, Option<String>)>>)
    ensures
        r.deep_view() == levels_of(targets.deep_view(), containers.deep_view(), max_depth),
{
    let waves: Vec<Vec<(String, Option<String>)>> = find_waves(targets, containers, max_depth);
    let (all, base): (Vec<(ManagedContainer, Option<String>)>, Vec<u128>) = gather(
        &waves,
        containers,
    );
    let graph: Vec<Vec<bool>> = find_graph(&all, containers);
    assert(graph.deep_view().len() == graph@.len());
    assert(all.deep_view().len() == all@.len());
    let depths: Vec<u128> = layers::find_depths(&graph, &base);
    let ghost v = all.deep_view();
    let ghost ds = depths_of(v, layers::as_nats(base@), containers.deep_view());
    let ghost goal = by_depth(v, ds);
    assert(layers::as_nats(depths@) == ds);
    let top: u128 = find_deepest(&depths);
    let mut r: Vec<Vec<(ManagedContainer, Option<String>)>> = Vec::new();
    let mut d: u128 = top;
    assert(r.deep_view() == goal.take(0));
    loop
        invariant_except_break
            r.deep_view() == goal.take(top - d),
        invariant
            d <= top,
            top == deepest(ds),
            v == all.deep_view(),
            ds == layers::as_nats(depths@),
            all@.len() == depths@.len(),
            goal == by_depth(v, ds),
        ensures
            r.deep_view() == goal,
        decreases d,
    {
        let ghost before = r.deep_view();
        let level: Vec<(ManagedContainer, Option<String>)> = find_level(&all, &depths, d);
        let ghost here = level.deep_view();
        r.push(level);
        proof {
            assert(r.deep_view() == before.push(here));
            assert(goal[top - d] == here);
            assert(goal.take(top - d + 1) == goal.take(top - d).push(here));
            assert(goal.take(goal.len() as int) == goal);
        }
        if d == 0 {
            break;
        }
        d = d - 1;
    }
    r
}

} // verus!
