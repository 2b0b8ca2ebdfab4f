//! Stopping containers whose sessions are over.

use crate::config;
use crate::container;
use crate::container::{ContainerView, ManagedContainer};
use crate::dependencies;
use crate::levels;
use crate::router;
use crate::router_laws;
use crate::sessions::{Sessions, SessionsView};
use crate::text;
use crate::time::Duration;
use vstd::prelude::*;

verus! {

/// The container has a session that is not over.
pub open spec fn live(s: SessionsView, id: Seq<char>, now: Duration) -> bool {
    s.session(id) matches Some(state) && !state.is_over(now)
}

/// Other members of a group than the container with `id`, without a session that goes on.
pub open spec fn idle_member(
    group: Seq<char>,
    id: Seq<char>,
    s: SessionsView,
    now: Duration,
) -> spec_fn(ContainerView) -> bool {
    |x: ContainerView| x.group == Some(group) && x.id != id && !live(s, x.id, now)
}

/// What an expired container takes along: itself, and the members of its group that are not in use
/// by a session of their own.
pub open spec fn expired_with(
    c: ContainerView,
    containers: Seq<ContainerView>,
    s: SessionsView,
    now: Duration,
) -> Seq<ContainerView> {
    match c.group {
        Some(group) => seq![c] + containers.filter(idle_member(group, c.id, s, now)),
        None => seq![c],
    }
}

/// The targets and what each is stopped with, each id once.
pub open spec fn stop_all(targets: Seq<ContainerView>, containers: Seq<ContainerView>) -> Seq<
    ContainerView,
>
    decreases targets.len(),
{
    if targets.len() == 0 {
        Seq::empty()
    } else {
        dependencies::with_all(
            stop_all(targets.drop_last(), containers),
            dependencies::stop_set(targets.last(), containers, config::MAX_DEPENDENCY_DEPTH),
        )
    }
}

/// A container may be stopped for being idle: it is not always on, and nothing is connected to it.
pub open spec fn stoppable(s: SessionsView) -> spec_fn(ContainerView) -> bool {
    |c: ContainerView| !c.always_on && s.connections(c.id) == 0
}

/// The containers that are stopped when the session of the container with `id` is over. A container
/// that is not known is stopped alone; one that is always on is left running with all it needs.
pub open spec fn idle_set(
    id: Seq<char>,
    containers: Seq<ContainerView>,
    s: SessionsView,
    now: Duration,
) -> Seq<Seq<char>> {
    match levels::by_id(containers, id) {
        None => seq![id],
        Some(c) => if c.always_on {
            Seq::empty()
        } else {
            stop_all(expired_with(c, containers, s, now), containers).filter(
                stoppable(s),
            ).map_values(|x: ContainerView| x.id)
        },
    }
}

/// What an expired container takes along.
fn take_along(
    c: &ManagedContainer,
    containers: &Vec<ManagedContainer>,
    sessions: &Sessions,
    now: Duration,
) -> (r: Vec<ManagedContainer>)
    ensures
        r.deep_view() == expired_with(c@, containers.deep_view(), sessions@, now),
{
    let mut r: Vec<ManagedContainer> = Vec::new();
    r.push(c.clone());
    assert(r.deep_view() == seq![c@]);
    match &c.group {
        None => {},
        Some(group) => {
            let ghost all = containers.deep_view();
            let ghost p = idle_member(group@, c@.id, sessions@, now);
            let mut i: usize = 0;
            proof {
                reveal(Seq::filter);
                assert(all.take(0) == Seq::<ContainerView>::empty());
                assert(r.deep_view() == seq![c@] + all.take(0).filter(p));
            }
            while i < containers.len()
                invariant
                    i <= containers@.len(),
                    all == containers.deep_view(),
                    p == idle_member(group@, c@.id, sessions@, now),
                    r.deep_view() == seq![c@] + all.take(i as int).filter(p),
                decreases containers.len() - i,
            {
                let ghost before = r.deep_view();
                let x: &ManagedContainer = &containers[i];
                proof {
                    reveal(Seq::filter);
                    let next = all.take(i + 1);
                    assert(next.drop_last() == all.take(i as int));
                    assert(next.last() == x@);
                }
                if container::is_text(&x.group, group.as_str()) && !text::equal(
                    x.id.as_str(),
                    c.id.as_str(),
                ) && !sessions.is_live(x.id.as_str(), now) {
                    r.push(x.clone());
                    proof {
                        assert(r.deep_view() == before.push(x@));
                        assert((seq![c@] + all.take(i as int).filter(p)).push(x@) == seq![c@] + (
                        all.take(i as int).filter(p).push(x@)));
                    }
                }
                i = i + 1;
            }
            assert(all.take(all.len() as int) == all);
        },
    }
    r
}

/// Adds the containers whose ids are not there yet.
fn add_all(out: &mut Vec<ManagedContainer>, more: &Vec<ManagedContainer>)
    ensures
        final(out).deep_view() == dependencies::with_all(old(out).deep_view(), more.deep_view()),
{
    let ghost start = out.deep_view();
    let ghost all = more.deep_view();
    let mut i: usize = 0;
    assert(all.take(0) == Seq::<ContainerView>::empty());
    while i < more.len()
        invariant
            i <= more@.len(),
            all == more.deep_view(),
            out.deep_view() == dependencies::with_all(start, all.take(i as int)),
        decreases more.len() - i,
    {
        let ghost before = out.deep_view();
        proof {
            let next = all.take(i + 1);
            assert(next.drop_last() == all.take(i as int));
            assert(next.last() == more@[i as int]@);
        }
        if !router::contains_id(out, more[i].id.as_str()) {
            out.push(more[i].clone());
            assert(out.deep_view() == before.push(more@[i as int]@));
        }
        i = i + 1;
    }
    assert(all.take(all.len() as int) == all);
}

/// The targets and what each is stopped with.
fn collect_stops(targets: &Vec<ManagedContainer>, containers: &Vec<ManagedContainer>) -> (r: Vec<
    ManagedContainer,
>)
    ensures
        r.deep_view() == stop_all(targets.deep_view(), containers.deep_view()),
{
    let ghost all = targets.deep_view();
    let mut r: Vec<ManagedContainer> = Vec::new();
    let mut i: usize = 0;
    assert(all.take(0) == Seq::<ContainerView>::empty());
    assert(r.deep_view() == stop_all(all.take(0), containers.deep_view()));
    while i < targets.len()
        invariant
            i <= targets@.len(),
            all == targets.deep_view(),
            r.deep_view() == stop_all(all.take(i as int), containers.deep_view()),
        decreases targets.len() - i,
    {
        proof {
            let next = all.take(i + 1);
            assert(next.drop_last() == all.take(i as int));
            assert(next.last() == targets@[i as int]@);
        }
        let chain: Vec<ManagedContainer> = dependencies::stop_chain(
            &targets[i],
            containers.as_slice(),
            config::MAX_DEPENDENCY_DEPTH,
        );
        add_all(&mut r, &chain);
        i = i + 1;
    }
    assert(all.take(all.len() as int) == all);
    r
}

/// The containers to stop now that the session of the container with `id` is over: the container,
/// the idle members of its group, and the managed containers that these depend on; but none that
/// is always on, and none that something is connected to.
pub fn idle_stops(
    id: &str,
    containers: &Vec<ManagedContainer>,
    sessions: &Sessions,
    now: Duration,
) -> (r: Vec<String>)
    ensures
        r.deep_view() == idle_set(id@, containers.deep_view(), sessions@, now),
{
    let c: &ManagedContainer = match levels::find_id(containers.as_slice(), id) {
        Some(i) => &containers[i],
        None => {
            let mut r: Vec<String> = Vec::new();
            r.push(id.to_string());
            assert(r.deep_view() == seq![id@]);
            return r;
        },
    };
    let mut r: Vec<String> = Vec::new();
    assert(r.deep_view() == Seq::<Seq<char>>::empty());
    if c.always_on {
        return r;
    }
    let targets: Vec<ManagedContainer> = take_along(c, containers, sessions, now);
    let stops: Vec<ManagedContainer> = collect_stops(&targets, containers);
    let ghost all = stops.deep_view();
    let ghost p = stoppable(sessions@);
    let ghost f = |x: ContainerView| x.id;
    let mut i: usize = 0;
    proof {
        reveal(Seq::filter);
        assert(all.take(0) == Seq::<ContainerView>::empty());
        assert(r.deep_view() == all.take(0).filter(p).map_values(f));
    }
    while i < stops.len()
        invariant
            i <= stops@.len(),
            all == stops.deep_view(),
            p == stoppable(sessions@),
            f == (|x: ContainerView| x.id),
            r.deep_view() == all.take(i as int).filter(p).map_values(f),
        decreases stops.len() - i,
    {
        let ghost before = r.deep_view();
        let x: &ManagedContainer = &stops[i];
        proof {
            reveal(Seq::filter);
            let next = all.take(i + 1);
            assert(next.drop_last() == all.take(i as int));
            assert(next.last() == x@);
        }
        if !x.always_on && sessions.active_count(x.id.as_str()) == 0 {
            r.push(x.id.clone());
            proof {
                assert(r.deep_view() == before.push(x@.id));
                assert(all.take(i as int).filter(p).push(x@).map_values(f) == all.take(
                    i as int,
                ).filter(p).map_values(f).push(x@.id));
            }
        }
        i = i + 1;
    }
    assert(all.take(all.len() as int) == all);
    r
}

// ---------------------------------------------------------------------------------------------
// A round
// ---------------------------------------------------------------------------------------------

/// How far a round over the expired sessions has come.
#[derive(Debug)]
pub enum IdleState {
    /// A container is being stopped for the container with this id. Then the others are, and after
    /// them the pending ids are dealt with.
    Stopping { id: String, later: Vec<String>, pending: Vec<String> },
    /// The round is over.
    Done,
}

/// What happened in a round.
#[derive(Debug, Clone, Copy, PartialEq, Eq, Structural)]
pub enum IdleEvent {
    /// Whether the container could be stopped.
    Stopped(bool),
}

/// What is to be done next in a round.
#[derive(Debug)]
pub enum IdleAction {
    /// Stop the container with this id.
    Stop(String),
    /// Do nothing more.
    Finish,
}

/// The mathematical value of an `IdleState`.
#[verifier::ext_equal]
pub enum IdleStateView {
    Stopping { id: Seq<char>, later: Seq<Seq<char>>, pending: Seq<Seq<char>> },
    Done,
}

impl View for IdleState {
    type V = IdleStateView;

    open spec fn view(&self) -> IdleStateView {
        match self {
            IdleState::Stopping { id, later, pending } => IdleStateView::Stopping {
                id: id@,
                later: later.deep_view(),
                pending: pending.deep_view(),
            },
            IdleState::Done => IdleStateView::Done,
        }
    }
}

/// The mathematical value of an `IdleAction`.
#[verifier::ext_equal]
pub enum IdleActionView {
    Stop(Seq<char>),
    Finish,
}

impl View for IdleAction {
    type V = IdleActionView;

    open spec fn view(&self) -> IdleActionView {
        match self {
            IdleAction::Stop(id) => IdleActionView::Stop(id@),
            IdleAction::Finish => IdleActionView::Finish,
        }
    }
}

/// Where a round is, what is to be done, and the sessions.
#[verifier::ext_equal]
pub struct IdleCourse {
    pub state: IdleStateView,
    pub action: IdleActionView,
    pub sessions: SessionsView,
}

/// Deals with the ids: each one's containers are stopped one after the other, and then its session
/// is forgotten. One without containers to stop is forgotten at once.
pub open spec fn deal_with(
    ids: Seq<Seq<char>>,
    containers: Seq<ContainerView>,
    s: SessionsView,
    now: Duration,
) -> IdleCourse
    decreases ids.len(),
{
    if ids.len() == 0 {
        IdleCourse { state: IdleStateView::Done, action: IdleActionView::Finish, sessions: s }
    } else {
        let id = ids[0];
        let stops = idle_set(id, containers, s, now);
        if stops.len() == 0 {
            deal_with(ids.skip(1), containers, s.forgotten(id), now)
        } else {
            IdleCourse {
                state: IdleStateView::Stopping { id, later: stops.skip(1), pending: ids.skip(1) },
                action: IdleActionView::Stop(stops[0]),
                sessions: s,
            }
        }
    }
}

/// The next step of a round. It is the same whether the stop before worked or not.
pub open spec fn idle_next(
    state: IdleStateView,
    event: IdleEvent,
    containers: Seq<ContainerView>,
    s: SessionsView,
    now: Duration,
) -> IdleCourse {
    match state {
        IdleStateView::Stopping { id, later, pending } => if later.len() > 0 {
            IdleCourse {
                state: IdleStateView::Stopping { id, later: later.skip(1), pending },
                action: IdleActionView::Stop(later[0]),
                sessions: s,
            }
        } else {
            deal_with(pending, containers, s.forgotten(id), now)
        },
        IdleStateView::Done => IdleCourse {
            state: IdleStateView::Done,
            action: IdleActionView::Finish,
            sessions: s,
        },
    }
}

/// Takes the first of some texts.
fn take_first(v: &mut Vec<String>) -> (r: String)
    requires
        old(v)@.len() > 0,
    ensures
        r@ == old(v).deep_view()[0],
        final(v).deep_view() == old(v).deep_view().skip(1),
{
    let ghost before = v.deep_view();
    let r: String = v.remove(0);
    assert(r@ == before[0]);
    assert(v.deep_view() == before.skip(1));
    r
}

/// Deals with the ids, as far as no container is to be stopped.
fn go_on(
    ids: Vec<String>,
    containers: &Vec<ManagedContainer>,
    sessions: &mut Sessions,
    now: Duration,
) -> (r: (IdleState, IdleAction))
    ensures
        (IdleCourse { state: r.0@, action: r.1@, sessions: final(sessions)@ }) == deal_with(
            ids.deep_view(),
            containers.deep_view(),
            old(sessions)@,
            now,
        ),
        old(sessions)@.wf() ==> final(sessions)@.wf(),
{
    let ghost cs = containers.deep_view();
    let ghost goal = deal_with(ids.deep_view(), cs, sessions@, now);
    let mut pending: Vec<String> = ids;
    while pending.len() > 0
        invariant
            cs == containers.deep_view(),
            deal_with(pending.deep_view(), cs, sessions@, now) == goal,
            goal == deal_with(ids.deep_view(), cs, old(sessions)@, now),
            old(sessions)@.wf() ==> sessions@.wf(),
        decreases pending@.len(),
    {
        assert(pending.deep_view().len() == pending@.len());
        let id: String = take_first(&mut pending);
        let mut stops: Vec<String> = idle_stops(id.as_str(), containers, sessions, now);
        assert(stops.deep_view().len() == stops@.len());
        if stops.len() > 0 {
            let first: String = take_first(&mut stops);
            return (IdleState::Stopping { id, later: stops, pending }, IdleAction::Stop(first));
        }
        sessions.remove(id.as_str());
        assert(pending.deep_view().len() == pending@.len());
    }
    assert(pending.deep_view().len() == 0);
    (IdleState::Done, IdleAction::Finish)
}

/// Begins a round over the sessions that are over now.
pub fn idle_round(
    containers: &Vec<ManagedContainer>,
    sessions: &mut Sessions,
    now: Duration,
) -> (r: (IdleState, IdleAction))
    ensures
        (IdleCourse { state: r.0@, action: r.1@, sessions: final(sessions)@ }) == deal_with(
            old(sessions)@.expired(now),
            containers.deep_view(),
            old(sessions)@,
            now,
        ),
        old(sessions)@.wf() ==> final(sessions)@.wf(),
{
    let ids: Vec<String> = sessions.expired(now);
    go_on(ids, containers, sessions, now)
}

/// Goes on with a round.
pub fn idle_round_step(
    state: IdleState,
    event: IdleEvent,
    containers: &Vec<ManagedContainer>,
    sessions: &mut Sessions,
    now: Duration,
) -> (r: (IdleState, IdleAction))
    ensures
        (IdleCourse { state: r.0@, action: r.1@, sessions: final(sessions)@ }) == idle_next(
            state@,
            event,
            containers.deep_view(),
            old(sessions)@,
            now,
        ),
        old(sessions)@.wf() ==> final(sessions)@.wf(),
{
    match state {
        IdleState::Stopping { id, later, pending } => {
            let mut rest: Vec<String> = later;
            assert(rest.deep_view().len() == rest@.len());
            if rest.len() > 0 {
                let first: String = take_first(&mut rest);
                (IdleState::Stopping { id, later: rest, pending }, IdleAction::Stop(first))
            } else {
                sessions.remove(id.as_str());
                go_on(pending, containers, sessions, now)
            }
        },
        IdleState::Done => (IdleState::Done, IdleAction::Finish),
    }
}

// ---------------------------------------------------------------------------------------------
// Laws
// ---------------------------------------------------------------------------------------------

/// What is stopped with managed containers are managed containers, and each target is among them
/// by id.
pub proof fn lemma_stop_all(targets: Seq<ContainerView>, containers: Seq<ContainerView>)
    requires
        forall|k: int| 0 <= k < targets.len() ==> containers.contains(#[trigger] targets[k]),
    ensures
        forall|k: int|
            0 <= k < stop_all(targets, containers).len() ==> containers.contains(
                #[trigger] stop_all(targets, containers)[k],
            ),
        forall|k: int|
            0 <= k < targets.len() ==> router::has_id(
                stop_all(targets, containers),
                (#[trigger] targets[k]).id,
            ),
    decreases targets.len(),
{
    if targets.len() > 0 {
        let init = targets.drop_last();
        let t = targets.last();
        assert forall|k: int| 0 <= k < init.len() implies containers.contains(
            #[trigger] init[k],
        ) by {
            assert(containers.contains(targets[k]));
        }
        lemma_stop_all(init, containers);
        let before = stop_all(init, containers);
        let chain = dependencies::stop_set(t, containers, config::MAX_DEPENDENCY_DEPTH);
        let after = stop_all(targets, containers);
        dependencies::lemma_stop_set(t, containers, config::MAX_DEPENDENCY_DEPTH);
        dependencies::lemma_with_all(before, chain);
        assert(containers.contains(targets[targets.len() - 1]));
        assert forall|k: int| 0 <= k < after.len() implies containers.contains(
            #[trigger] after[k],
        ) by {
            if k < before.len() {
                assert(after[k] == before[k]) by {
                    assert(before == after.subrange(0, before.len() as int));
                }
            } else {
                assert(chain.contains(after[k]));
                let m = chain.index_of(after[k]);
                if m > 0 {
                    assert(containers.contains(chain[m]));
                }
            }
        }
        assert forall|k: int| 0 <= k < targets.len() implies router::has_id(
            after,
            (#[trigger] targets[k]).id,
        ) by {
            if k < init.len() {
                assert(router::has_id(before, init[k].id));
            } else {
                assert(chain[0].id == t.id);
                assert(router::has_id(chain, t.id));
            }
        }
    }
}

/// What an expired container takes along are managed containers.
proof fn lemma_expired_with(
    c: ContainerView,
    containers: Seq<ContainerView>,
    s: SessionsView,
    now: Duration,
)
    requires
        containers.contains(c),
    ensures
        forall|k: int|
            0 <= k < expired_with(c, containers, s, now).len() ==> containers.contains(
                #[trigger] expired_with(c, containers, s, now)[k],
            ),
        expired_with(c, containers, s, now).len() > 0,
        expired_with(c, containers, s, now)[0] == c,
{
    let v = expired_with(c, containers, s, now);
    assert forall|k: int| 0 <= k < v.len() implies containers.contains(#[trigger] v[k]) by {
        if k > 0 {
            let p = idle_member(c.group->0, c.id, s, now);
            let f = containers.filter(p);
            assert(v[k] == f[k - 1]);
            assert(f.contains(f[k - 1]));
            containers.lemma_filter_contains_rev(p, f[k - 1]);
        }
    }
}

/// A stopped container of the known ones, by its id.
pub proof fn lemma_stopped(
    id: Seq<char>,
    containers: Seq<ContainerView>,
    s: SessionsView,
    now: Duration,
    x: Seq<char>,
) -> (c: ContainerView)
    requires
        levels::by_id(containers, id) is Some,
        idle_set(id, containers, s, now).contains(x),
    ensures
        containers.contains(c),
        c.id == x,
        !c.always_on,
        s.connections(x) == 0,
{
    let target = levels::by_id(containers, id)->0;
    container::lemma_first_such(containers, |y: ContainerView| y.id == id);
    let targets = expired_with(target, containers, s, now);
    lemma_expired_with(target, containers, s, now);
    lemma_stop_all(targets, containers);
    let all = stop_all(targets, containers);
    let f = all.filter(stoppable(s));
    let ids = f.map_values(|y: ContainerView| y.id);
    let k = ids.index_of(x);
    let c = f[k];
    assert(f.contains(c));
    all.lemma_filter_contains_rev(stoppable(s), c);
    assert(containers.contains(all[all.index_of(c)]));
    c
}

/// A container that something is connected to is never stopped for being idle.
pub proof fn lemma_connected_is_kept(
    id: Seq<char>,
    containers: Seq<ContainerView>,
    s: SessionsView,
    now: Duration,
    x: Seq<char>,
)
    requires
        s.wf(),
        s.expired(now).contains(id),
        s.connections(x) > 0,
    ensures
        !idle_set(id, containers, s, now).contains(x),
{
    crate::sessions::lemma_expired(s, now, id);
    if idle_set(id, containers, s, now).contains(x) {
        if levels::by_id(containers, id) is Some {
            let _ = lemma_stopped(id, containers, s, now, x);
        } else {
            assert(seq![id].index_of(x) == 0);
        }
    }
}

/// A container that is always on is never stopped for being idle.
pub proof fn lemma_always_on_is_kept(
    id: Seq<char>,
    containers: Seq<ContainerView>,
    s: SessionsView,
    now: Duration,
    i: int,
)
    requires
        router_laws::distinct_ids(containers),
        0 <= i < containers.len(),
        containers[i].always_on,
    ensures
        !idle_set(id, containers, s, now).contains(containers[i].id),
{
    let x = containers[i].id;
    if idle_set(id, containers, s, now).contains(x) {
        if levels::by_id(containers, id) is Some {
            let c = lemma_stopped(id, containers, s, now, x);
            let k = containers.index_of(c);
            assert(containers[k].id == containers[i].id);
            assert(k == i);
        } else {
            assert(seq![id].index_of(x) == 0);
            assert(x == id);
            container::lemma_first_such(containers, |y: ContainerView| y.id == id);
            assert(containers.contains(containers[i]));
        }
    }
}

/// An expired container is stopped, unless it is always on.
pub proof fn lemma_expired_is_stopped(
    id: Seq<char>,
    containers: Seq<ContainerView>,
    s: SessionsView,
    now: Duration,
)
    requires
        s.wf(),
        s.expired(now).contains(id),
        router_laws::distinct_ids(containers),
        levels::by_id(containers, id) matches Some(c) ==> !c.always_on,
    ensures
        idle_set(id, containers, s, now).contains(id),
{
    crate::sessions::lemma_expired(s, now, id);
    container::lemma_first_such(containers, |y: ContainerView| y.id == id);
    match levels::by_id(containers, id) {
        None => {
            assert(seq![id][0] == id);
        },
        Some(c) => {
            let targets = expired_with(c, containers, s, now);
            lemma_expired_with(c, containers, s, now);
            lemma_stop_all(targets, containers);
            let all = stop_all(targets, containers);
            assert(router::has_id(all, targets[0].id));
            let k = choose|k: int| 0 <= k < all.len() && (#[trigger] all[k]).id == id;
            let d = all[k];
            assert(containers.contains(d));
            let m = containers.index_of(d);
            let n = containers.index_of(c);
            assert(containers[m].id == containers[n].id);
            assert(m == n);
            all.lemma_filter_contains(stoppable(s), k);
            let f = all.filter(stoppable(s));
            let ids = f.map_values(|y: ContainerView| y.id);
            assert(ids[f.index_of(d)] == id);
        },
    }
}

/// The members of an expired container's group are stopped with it, unless a session of their own
/// goes on, they are always on or something is connected to them.
pub proof fn lemma_idle_member_is_stopped(
    id: Seq<char>,
    containers: Seq<ContainerView>,
    s: SessionsView,
    now: Duration,
    c: ContainerView,
    x: ContainerView,
)
    requires
        router_laws::distinct_ids(containers),
        levels::by_id(containers, id) == Some(c),
        !c.always_on,
        containers.contains(x),
        c.group is Some,
        x.group == c.group,
        x.id != id,
        !live(s, x.id, now),
        !x.always_on,
        s.connections(x.id) == 0,
    ensures
        idle_set(id, containers, s, now).contains(x.id),
{
    container::lemma_first_such(containers, |y: ContainerView| y.id == id);
    let targets = expired_with(c, containers, s, now);
    lemma_expired_with(c, containers, s, now);
    lemma_stop_all(targets, containers);
    let p = idle_member(c.group->0, c.id, s, now);
    containers.lemma_filter_contains(p, containers.index_of(x));
    let others = containers.filter(p);
    assert(targets[others.index_of(x) + 1] == x);
    let all = stop_all(targets, containers);
    assert(router::has_id(all, x.id));
    let k = choose|k: int| 0 <= k < all.len() && (#[trigger] all[k]).id == x.id;
    assert(containers.contains(all[k]));
    let m = containers.index_of(all[k]);
    let n = containers.index_of(x);
    assert(containers[m].id == containers[n].id);
    assert(m == n);
    all.lemma_filter_contains(stoppable(s), k);
    let f = all.filter(stoppable(s));
    let ids = f.map_values(|y: ContainerView| y.id);
    assert(ids[f.index_of(x)] == x.id);
}

/// What an expired container depends on is stopped with it, as far as it is managed, not always on
/// and not in use by a connection.
pub proof fn lemma_dependency_is_stopped(
    id: Seq<char>,
    containers: Seq<ContainerView>,
    s: SessionsView,
    now: Duration,
    c: ContainerView,
    d: ContainerView,
)
    requires
        router_laws::distinct_ids(containers),
        levels::by_id(containers, id) == Some(c),
        !c.always_on,
        c.dependencies(containers).contains(d),
        !d.always_on,
        s.connections(d.id) == 0,
    ensures
        idle_set(id, containers, s, now).contains(d.id),
{
    container::lemma_first_such(containers, |y: ContainerView| y.id == id);
    let targets = expired_with(c, containers, s, now);
    lemma_expired_with(c, containers, s, now);
    lemma_stop_all(targets, containers);
    let all = stop_all(targets, containers);
    dependencies::lemma_dependencies_managed(c, containers);
    let deps = c.dependencies(containers);
    assert(containers.contains(deps[deps.index_of(d)]));
    lemma_first_chain(targets, containers, c, d);
    let k = choose|k: int| 0 <= k < all.len() && (#[trigger] all[k]).id == d.id;
    assert(containers.contains(all[k]));
    let m = containers.index_of(all[k]);
    let n = containers.index_of(d);
    assert(containers[m].id == containers[n].id);
    assert(m == n);
    all.lemma_filter_contains(stoppable(s), k);
    let f = all.filter(stoppable(s));
    let ids = f.map_values(|y: ContainerView| y.id);
    assert(ids[f.index_of(all[k])] == d.id);
}

/// What the first target depends on is stopped with the targets.
proof fn lemma_first_chain(
    targets: Seq<ContainerView>,
    containers: Seq<ContainerView>,
    c: ContainerView,
    d: ContainerView,
)
    requires
        targets.len() > 0,
        targets[0] == c,
        c.dependencies(containers).contains(d),
    ensures
        router::has_id(stop_all(targets, containers), d.id),
    decreases targets.len(),
{
    let init = targets.drop_last();
    let t = targets.last();
    let chain = dependencies::stop_set(t, containers, config::MAX_DEPENDENCY_DEPTH);
    dependencies::lemma_with_all(stop_all(init, containers), chain);
    if targets.len() > 1 {
        lemma_first_chain(init, containers, c, d);
    } else {
        assert(t == c);
        dependencies::lemma_direct(c, d, containers, config::MAX_DEPENDENCY_DEPTH);
    }
}

/// The containers that are stopped with some targets have distinct ids.
proof fn lemma_distinct_stops(targets: Seq<ContainerView>, containers: Seq<ContainerView>)
    ensures
        router_laws::distinct_ids(stop_all(targets, containers)),
    decreases targets.len(),
{
    if targets.len() > 0 {
        lemma_distinct_stops(targets.drop_last(), containers);
        dependencies::lemma_with_all(
            stop_all(targets.drop_last(), containers),
            dependencies::stop_set(targets.last(), containers, config::MAX_DEPENDENCY_DEPTH),
        );
    }
}

/// Filtering keeps ids distinct.
proof fn lemma_distinct_filtered(v: Seq<ContainerView>, p: spec_fn(ContainerView) -> bool)
    requires
        router_laws::distinct_ids(v),
    ensures
        router_laws::distinct_ids(v.filter(p)),
    decreases v.len(),
{
    reveal(Seq::filter);
    if v.len() > 0 {
        let init = v.drop_last();
        assert forall|i: int, j: int| 0 <= i < j < init.len() implies (#[trigger] init[i]).id != (
        #[trigger] init[j]).id by {
            assert(v[i].id != v[j].id);
        }
        lemma_distinct_filtered(init, p);
        let before = init.filter(p);
        let after = v.filter(p);
        if p(v.last()) {
            assert(after == before.push(v.last()));
            assert forall|i: int, j: int| 0 <= i < j < after.len() implies (#[trigger] after[i]).id
                != (#[trigger] after[j]).id by {
                assert(after[i] == before[i]);
                if j == before.len() {
                    assert(before.contains(before[i]));
                    init.lemma_filter_contains_rev(p, before[i]);
                    assert(v[init.index_of(before[i])].id != v[v.len() - 1].id);
                } else {
                    assert(after[j] == before[j]);
                }
            }
        }
    }
}

/// No container is stopped twice for one expired container.
pub proof fn lemma_stopped_once(
    id: Seq<char>,
    containers: Seq<ContainerView>,
    s: SessionsView,
    now: Duration,
    i: int,
    j: int,
)
    requires
        0 <= i < j < idle_set(id, containers, s, now).len(),
    ensures
        idle_set(id, containers, s, now)[i] != idle_set(id, containers, s, now)[j],
{
    match levels::by_id(containers, id) {
        None => {},
        Some(c) => {
            let targets = expired_with(c, containers, s, now);
            lemma_distinct_stops(targets, containers);
            lemma_distinct_filtered(stop_all(targets, containers), stoppable(s));
            let f = stop_all(targets, containers).filter(stoppable(s));
            assert(f[i].id != f[j].id);
        },
    }
}

/// A stop that fails changes nothing of a round.
pub proof fn lemma_failed_stop_skips_nothing(
    state: IdleStateView,
    containers: Seq<ContainerView>,
    s: SessionsView,
    now: Duration,
)
    ensures
        idle_next(state, IdleEvent::Stopped(false), containers, s, now) == idle_next(
            state,
            IdleEvent::Stopped(true),
            containers,
            s,
            now,
        ),
{
}

/// Where a round stands after these answers to its stops.
pub open spec fn after_stops(
    start: IdleCourse,
    answers: Seq<bool>,
    containers: Seq<ContainerView>,
    now: Duration,
) -> IdleCourse
    decreases answers.len(),
{
    if answers.len() == 0 {
        start
    } else {
        let before = after_stops(start, answers.drop_last(), containers, now);
        idle_next(
            before.state,
            IdleEvent::Stopped(answers.last()),
            containers,
            before.sessions,
            now,
        )
    }
}

/// Where a round stands after `n` stops for its first id.
proof fn lemma_stopping(
    ids: Seq<Seq<char>>,
    containers: Seq<ContainerView>,
    s: SessionsView,
    now: Duration,
    answers: Seq<bool>,
)
    requires
        ids.len() > 0,
        answers.len() < idle_set(ids[0], containers, s, now).len(),
    ensures
        after_stops(deal_with(ids, containers, s, now), answers, containers, now) == (IdleCourse {
            state: IdleStateView::Stopping {
                id: ids[0],
                later: idle_set(ids[0], containers, s, now).skip(answers.len() as int + 1),
                pending: ids.skip(1),
            },
            action: IdleActionView::Stop(
                idle_set(ids[0], containers, s, now)[answers.len() as int],
            ),
            sessions: s,
        }),
    decreases answers.len(),
{
    if answers.len() > 0 {
        lemma_stopping(ids, containers, s, now, answers.drop_last());
        let stops = idle_set(ids[0], containers, s, now);
        let n = answers.len() as int;
        assert(stops.skip(n)[0] == stops[n]);
        assert(stops.skip(n).skip(1) == stops.skip(n + 1));
    }
}

/// For each id of a round every container that is to be stopped for it is asked to stop, one after
/// the other and each once, whatever came back; then its session is forgotten, and the next id is
/// dealt with.
pub proof fn lemma_round(
    ids: Seq<Seq<char>>,
    containers: Seq<ContainerView>,
    s: SessionsView,
    now: Duration,
    answers: Seq<bool>,
)
    requires
        ids.len() > 0,
        answers.len() <= idle_set(ids[0], containers, s, now).len(),
    ensures
        ({
            let stops = idle_set(ids[0], containers, s, now);
            let course = after_stops(deal_with(ids, containers, s, now), answers, containers, now);
            if answers.len() < stops.len() {
                course.action == IdleActionView::Stop(stops[answers.len() as int])
                    && course.sessions == s
            } else {
                course == deal_with(ids.skip(1), containers, s.forgotten(ids[0]), now)
            }
        }),
{
    let stops = idle_set(ids[0], containers, s, now);
    if answers.len() < stops.len() {
        lemma_stopping(ids, containers, s, now, answers);
    } else if stops.len() > 0 {
        lemma_stopping(ids, containers, s, now, answers.drop_last());
    }
}

} // verus!
