//! Keeping the network aliases of the proxy in step with the hosts of the managed containers.

use crate::container;
use crate::container::{ContainerView, ManagedContainer};
use crate::order;
use crate::router::Router;
use crate::text;
use vstd::prelude::*;
use vstd::relations::*;

verus! {

// ---------------------------------------------------------------------------------------------
// The hosts
// ---------------------------------------------------------------------------------------------

/// `v` with those of `more` that are not empty and not there yet.
pub open spec fn with_names(v: Seq<Seq<char>>, more: Seq<Seq<char>>) -> Seq<Seq<char>>
    decreases more.len(),
{
    if more.len() == 0 {
        v
    } else {
        let before = with_names(v, more.drop_last());
        if more.last().len() == 0 || before.contains(more.last()) {
            before
        } else {
            before.push(more.last())
        }
    }
}

/// The host names of a container: those of its routes, then its aliases.
pub open spec fn names_of(c: ContainerView) -> Seq<Seq<char>> {
    c.routes.map_values(|r: container::RouteView| r.host) + c.aliases
}

/// The host names of a list of containers, each once.
pub open spec fn names_of_all(containers: Seq<ContainerView>) -> Seq<Seq<char>>
    decreases containers.len(),
{
    if containers.len() == 0 {
        Seq::empty()
    } else {
        with_names(names_of_all(containers.drop_last()), names_of(containers.last()))
    }
}

/// Whether a list holds a text.
pub fn contains_text(v: &Vec<String>, s: &str) -> (r: bool)
    ensures
        r == v.deep_view().contains(s@),
{
    let mut i: usize = 0;
    while i < v.len()
        invariant
            i <= v@.len(),
            forall|j: int| 0 <= j < i ==> #[trigger] v.deep_view()[j] != s@,
        decreases v.len() - i,
    {
        assert(v.deep_view()[i as int] == v@[i as int]@);
        if text::equal(v[i].as_str(), s) {
            return true;
        }
        i = i + 1;
    }
    false
}

/// Adds a name, unless it is empty or there already.
fn push_name(v: &mut Vec<String>, s: &str)
    ensures
        final(v).deep_view() == (if s@.len() == 0 || old(v).deep_view().contains(s@) {
            old(v).deep_view()
        } else {
            old(v).deep_view().push(s@)
        }),
{
    let ghost before = v.deep_view();
    if !s.is_empty() && !contains_text(v, s) {
        v.push(s.to_string());
        assert(v.deep_view() == before.push(s@));
    }
}

/// Adds the host names of a container.
fn push_names(v: &mut Vec<String>, c: &ManagedContainer)
    ensures
        final(v).deep_view() == with_names(old(v).deep_view(), names_of(c@)),
{
    let ghost start = v.deep_view();
    let ghost names = names_of(c@);
    let n: usize = c.routes.len();
    let mut i: usize = 0;
    assert(names.take(0) == Seq::<Seq<char>>::empty());
    while i < n
        invariant
            i <= n == c.routes@.len(),
            names == names_of(c@),
            v.deep_view() == with_names(start, names.take(i as int)),
        decreases n - i,
    {
        proof {
            let next = names.take(i + 1);
            assert(next.drop_last() == names.take(i as int));
            assert(c@.routes[i as int] == c.routes@[i as int]@);
            assert(next.last() == c.routes@[i as int].host@);
        }
        push_name(v, c.routes[i].host.as_str());
        i = i + 1;
    }
    let mut j: usize = 0;
    while j < c.aliases.len()
        invariant
            n == c.routes@.len(),
            j <= c.aliases@.len(),
            names == names_of(c@),
            v.deep_view() == with_names(start, names.take(n + j)),
        decreases c.aliases.len() - j,
    {
        proof {
            let next = names.take(n + j + 1);
            assert(next.drop_last() == names.take(n + j));
            assert(next.last() == c.aliases@[j as int]@);
        }
        push_name(v, c.aliases[j].as_str());
        j = j + 1;
    }
    assert(names.take(names.len() as int) == names);
}

/// The host names of the managed containers, from routes and aliases, each once and in order.
pub fn collect_route_hosts(router: &Router) -> (r: Vec<String>)
    ensures
        r.deep_view() == order::sorted(names_of_all(router@.containers())),
{
    let containers: Vec<ManagedContainer> = router.containers();
    let ghost all = containers.deep_view();
    let mut names: Vec<String> = Vec::new();
    let mut i: usize = 0;
    proof {
        assert(all.take(0) == Seq::<ContainerView>::empty());
        assert(names.deep_view() == Seq::<Seq<char>>::empty());
    }
    while i < containers.len()
        invariant
            i <= containers@.len(),
            all == containers.deep_view(),
            names.deep_view() == names_of_all(all.take(i as int)),
        decreases containers.len() - i,
    {
        proof {
            let next = all.take(i + 1);
            assert(next.drop_last() == all.take(i as int));
            assert(next.last() == containers@[i as int]@);
        }
        push_names(&mut names, &containers[i]);
        i = i + 1;
    }
    assert(all.take(all.len() as int) == all);
    order::sort(&names)
}

// ---------------------------------------------------------------------------------------------
// The plan
// ---------------------------------------------------------------------------------------------

/// `a` is the name of the proxy's own container, or the short form of it up to the first dot.
pub open spec fn is_own_name(name: Option<Seq<char>>, a: Seq<char>) -> bool {
    name matches Some(n) && (a == n || a == text::before_first(n, '.'))
}

/// Aliases that stay: hosts, and the proxy's own name.
pub open spec fn stays(hosts: Seq<Seq<char>>, name: Option<Seq<char>>) -> spec_fn(
    Seq<char>,
) -> bool {
    |a: Seq<char>| hosts.contains(a) || is_own_name(name, a)
}

/// Hosts that are not among the aliases.
pub open spec fn absent(existing: Seq<Seq<char>>) -> spec_fn(Seq<char>) -> bool {
    |h: Seq<char>| !existing.contains(h)
}

/// `v` with those of `more` that are not there yet.
pub open spec fn with_new(v: Seq<Seq<char>>, more: Seq<Seq<char>>) -> Seq<Seq<char>>
    decreases more.len(),
{
    if more.len() == 0 {
        v
    } else {
        let before = with_new(v, more.drop_last());
        if before.contains(more.last()) {
            before
        } else {
            before.push(more.last())
        }
    }
}

/// The aliases to have: those that stay and the hosts that are missing, in order.
pub open spec fn merged(
    hosts: Seq<Seq<char>>,
    current: Seq<Seq<char>>,
    name: Option<Seq<char>>,
) -> Seq<Seq<char>> {
    order::sorted(with_new(current.filter(stays(hosts, name)), hosts.filter(absent(current))))
}

/// What is done about the aliases on the network.
#[derive(Debug)]
pub enum AliasPlan {
    /// Nothing: they are as they should be.
    Keep,
    /// The proxy is not on the network: connect it with these aliases.
    Connect(Vec<String>),
    /// The proxy is on the network: disconnect it and connect it again with these aliases.
    Reconnect(Vec<String>),
}

/// The mathematical value of an `AliasPlan`.
#[verifier::ext_equal]
pub enum PlanView {
    Keep,
    Connect(Seq<Seq<char>>),
    Reconnect(Seq<Seq<char>>),
}

impl View for AliasPlan {
    type V = PlanView;

    open spec fn view(&self) -> PlanView {
        match self {
            AliasPlan::Keep => PlanView::Keep,
            AliasPlan::Connect(v) => PlanView::Connect(v.deep_view()),
            AliasPlan::Reconnect(v) => PlanView::Reconnect(v.deep_view()),
        }
    }
}

/// The plan for a proxy that should have `hosts` as aliases. `attached` are the aliases that it
/// has on the network, `None` where it is not on the network. `name` is the name of its own
/// container.
pub open spec fn plan_for(
    hosts: Seq<Seq<char>>,
    attached: Option<Seq<Seq<char>>>,
    name: Option<Seq<char>>,
) -> PlanView {
    match attached {
        None => if hosts.len() == 0 {
            PlanView::Keep
        } else {
            PlanView::Connect(hosts)
        },
        Some(current) => if hosts.len() == 0 || merged(hosts, current, name) == order::sorted(
            current,
        ) {
            PlanView::Keep
        } else {
            PlanView::Reconnect(merged(hosts, current, name))
        },
    }
}

/// Whether an alias is the proxy's own name.
fn own_name(name: &Option<String>, a: &str) -> (r: bool)
    ensures
        r == is_own_name(name.deep_view(), a@),
{
    match name {
        Some(n) => text::equal(a, n.as_str()) || text::equal(a, text::before(n.as_str(), '.')),
        None => false,
    }
}

/// The aliases that stay.
fn keep_aliases(hosts: &Vec<String>, current: &Vec<String>, name: &Option<String>) -> (r: Vec<
    String,
>)
    ensures
        r.deep_view() == current.deep_view().filter(stays(hosts.deep_view(), name.deep_view())),
{
    let ghost all = current.deep_view();
    let ghost p = stays(hosts.deep_view(), name.deep_view());
    let mut r: Vec<String> = Vec::new();
    let mut i: usize = 0;
    proof {
        reveal(Seq::filter);
        assert(all.take(0) == Seq::<Seq<char>>::empty());
        assert(r.deep_view() == all.take(0).filter(p));
    }
    while i < current.len()
        invariant
            i <= current@.len(),
            all == current.deep_view(),
            p == stays(hosts.deep_view(), name.deep_view()),
            r.deep_view() == all.take(i as int).filter(p),
        decreases current.len() - i,
    {
        let ghost before = r.deep_view();
        proof {
            reveal(Seq::filter);
            let next = all.take(i + 1);
            assert(next.drop_last() == all.take(i as int));
            assert(next.last() == current@[i as int]@);
        }
        let a: &str = current[i].as_str();
        if contains_text(hosts, a) || own_name(name, a) {
            r.push(a.to_string());
            assert(r.deep_view() == before.push(a@));
        }
        i = i + 1;
    }
    assert(all.take(all.len() as int) == all);
    r
}

/// The hosts that are not among the aliases.
fn missing_hosts(hosts: &Vec<String>, current: &Vec<String>) -> (r: Vec<String>)
    ensures
        r.deep_view() == hosts.deep_view().filter(absent(current.deep_view())),
{
    let ghost all = hosts.deep_view();
    let ghost p = absent(current.deep_view());
    let mut r: Vec<String> = Vec::new();
    let mut i: usize = 0;
    proof {
        reveal(Seq::filter);
        assert(all.take(0) == Seq::<Seq<char>>::empty());
        assert(r.deep_view() == all.take(0).filter(p));
    }
    while i < hosts.len()
        invariant
            i <= hosts@.len(),
            all == hosts.deep_view(),
            p == absent(current.deep_view()),
            r.deep_view() == all.take(i as int).filter(p),
        decreases hosts.len() - i,
    {
        let ghost before = r.deep_view();
        proof {
            reveal(Seq::filter);
            let next = all.take(i + 1);
            assert(next.drop_last() == all.take(i as int));
            assert(next.last() == hosts@[i as int]@);
        }
        let h: &str = hosts[i].as_str();
        if !contains_text(current, h) {
            r.push(h.to_string());
            assert(r.deep_view() == before.push(h@));
        }
        i = i + 1;
    }
    assert(all.take(all.len() as int) == all);
    r
}

/// The aliases to have.
fn merge(hosts: &Vec<String>, current: &Vec<String>, name: &Option<String>) -> (r: Vec<String>)
    ensures
        r.deep_view() == merged(hosts.deep_view(), current.deep_view(), name.deep_view()),
{
    let missing: Vec<String> = missing_hosts(hosts, current);
    let ghost all = missing.deep_view();
    let mut v: Vec<String> = keep_aliases(hosts, current, name);
    let ghost kept = v.deep_view();
    let mut i: usize = 0;
    assert(all.take(0) == Seq::<Seq<char>>::empty());
    while i < missing.len()
        invariant
            i <= missing@.len(),
            all == missing.deep_view(),
            v.deep_view() == with_new(kept, all.take(i as int)),
        decreases missing.len() - i,
    {
        let ghost before = v.deep_view();
        proof {
            let next = all.take(i + 1);
            assert(next.drop_last() == all.take(i as int));
            assert(next.last() == missing@[i as int]@);
        }
        let h: &str = missing[i].as_str();
        if !contains_text(&v, h) {
            v.push(h.to_string());
            assert(v.deep_view() == before.push(h@));
        }
        i = i + 1;
    }
    assert(all.take(all.len() as int) == all);
    order::sort(&v)
}

/// Whether two lists hold the same texts in the same order.
fn same_texts(a: &Vec<String>, b: &Vec<String>) -> (r: bool)
    ensures
        r == (a.deep_view() == b.deep_view()),
{
    if a.len() != b.len() {
        assert(a.deep_view().len() != b.deep_view().len());
        return false;
    }
    let mut i: usize = 0;
    while i < a.len()
        invariant
            i <= a@.len() == b@.len(),
            forall|j: int| 0 <= j < i ==> #[trigger] a.deep_view()[j] == b.deep_view()[j],
        decreases a.len() - i,
    {
        assert(a.deep_view()[i as int] == a@[i as int]@);
        assert(b.deep_view()[i as int] == b@[i as int]@);
        if !text::equal(a[i].as_str(), b[i].as_str()) {
            return false;
        }
        i = i + 1;
    }
    assert(a.deep_view() =~= b.deep_view());
    true
}

/// Plans what is done about the aliases on the network.
pub fn plan_self_aliases(
    hosts: &Vec<String>,
    attached: &Option<Vec<String>>,
    name: &Option<String>,
) -> (r: AliasPlan)
    ensures
        r@ == plan_for(hosts.deep_view(), attached.deep_view(), name.deep_view()),
{
    assert(hosts.deep_view().len() == hosts@.len());
    if hosts.len() == 0 {
        return AliasPlan::Keep;
    }
    match attached {
        None => AliasPlan::Connect(container::copy_texts(hosts)),
        Some(current) => {
            let goal: Vec<String> = merge(hosts, current, name);
            if same_texts(&goal, &order::sort(current)) {
                AliasPlan::Keep
            } else {
                AliasPlan::Reconnect(goal)
            }
        },
    }
}

// ---------------------------------------------------------------------------------------------
// Carrying the plan out
// ---------------------------------------------------------------------------------------------

/// How far a round of keeping the aliases in step has come.
#[derive(Debug)]
pub enum AliasState {
    /// The id of the proxy's own container is being looked up.
    NeedId { hosts: Vec<String> },
    /// The aliases on the network are being looked up.
    NeedAttached { hosts: Vec<String>, id: String },
    /// The name of the proxy's own container is being looked up.
    NeedName { hosts: Vec<String>, id: String, current: Vec<String> },
    /// The proxy is being disconnected from the network.
    NeedDisconnect { id: String, aliases: Vec<String> },
    /// The proxy is being connected to the network.
    NeedConnect,
    /// The round is over.
    Finished,
}

/// What happened in the state before.
#[derive(Debug)]
pub enum AliasEvent {
    /// The id of the proxy's own container, where it could be found out.
    SelfId(Option<String>),
    /// The aliases on the network, where they could be looked up; `None` inside where the proxy is
    /// not on the network.
    Attached(Option<Option<Vec<String>>>),
    /// The name of the proxy's own container, where it could be found out.
    SelfName(Option<String>),
    /// Whether the proxy was disconnected.
    Disconnected(bool),
    /// Whether the proxy was connected.
    Connected(bool),
}

/// What is to be done next.
#[derive(Debug)]
pub enum AliasAction {
    /// Find out the id of the proxy's own container.
    ResolveSelfId,
    /// Look up the aliases of the container with this id.
    Inspect(String),
    /// Find out the name of the proxy's own container.
    ResolveSelfName,
    /// Disconnect the container with this id.
    Disconnect(String),
    /// Connect the container with this id, with these aliases.
    Connect(String, Vec<String>),
    /// Nothing more.
    Finish,
}

/// The mathematical value of an `AliasState`.
#[verifier::ext_equal]
pub enum AliasStateView {
    NeedId { hosts: Seq<Seq<char>> },
    NeedAttached { hosts: Seq<Seq<char>>, id: Seq<char> },
    NeedName { hosts: Seq<Seq<char>>, id: Seq<char>, current: Seq<Seq<char>> },
    NeedDisconnect { id: Seq<char>, aliases: Seq<Seq<char>> },
    NeedConnect,
    Finished,
}

impl View for AliasState {
    type V = AliasStateView;

    open spec fn view(&self) -> AliasStateView {
        match self {
            AliasState::NeedId { hosts } => AliasStateView::NeedId { hosts: hosts.deep_view() },
            AliasState::NeedAttached { hosts, id } => AliasStateView::NeedAttached {
                hosts: hosts.deep_view(),
                id: id@,
            },
            AliasState::NeedName { hosts, id, current } => AliasStateView::NeedName {
                hosts: hosts.deep_view(),
                id: id@,
                current: current.deep_view(),
            },
            AliasState::NeedDisconnect { id, aliases } => AliasStateView::NeedDisconnect {
                id: id@,
                aliases: aliases.deep_view(),
            },
            AliasState::NeedConnect => AliasStateView::NeedConnect,
            AliasState::Finished => AliasStateView::Finished,
        }
    }
}

/// The mathematical value of an `AliasEvent`.
#[verifier::ext_equal]
pub enum AliasEventView {
    SelfId(Option<Seq<char>>),
    Attached(Option<Option<Seq<Seq<char>>>>),
    SelfName(Option<Seq<char>>),
    Disconnected(bool),
    Connected(bool),
}

impl View for AliasEvent {
    type V = AliasEventView;

    open spec fn view(&self) -> AliasEventView {
        match self {
            AliasEvent::SelfId(id) => AliasEventView::SelfId(id.deep_view()),
            AliasEvent::Attached(v) => AliasEventView::Attached(v.deep_view()),
            AliasEvent::SelfName(name) => AliasEventView::SelfName(name.deep_view()),
            AliasEvent::Disconnected(ok) => AliasEventView::Disconnected(*ok),
            AliasEvent::Connected(ok) => AliasEventView::Connected(*ok),
        }
    }
}

/// The mathematical value of an `AliasAction`.
#[verifier::ext_equal]
pub enum AliasActionView {
    ResolveSelfId,
    Inspect(Seq<char>),
    ResolveSelfName,
    Disconnect(Seq<char>),
    Connect(Seq<char>, Seq<Seq<char>>),
    Finish,
}

impl View for AliasAction {
    type V = AliasActionView;

    open spec fn view(&self) -> AliasActionView {
        match self {
            AliasAction::ResolveSelfId => AliasActionView::ResolveSelfId,
            AliasAction::Inspect(id) => AliasActionView::Inspect(id@),
            AliasAction::ResolveSelfName => AliasActionView::ResolveSelfName,
            AliasAction::Disconnect(id) => AliasActionView::Disconnect(id@),
            AliasAction::Connect(id, v) => AliasActionView::Connect(id@, v.deep_view()),
            AliasAction::Finish => AliasActionView::Finish,
        }
    }
}

/// The start of a round: without hosts there is nothing to do.
pub open spec fn sync_start(hosts: Seq<Seq<char>>) -> (AliasStateView, AliasActionView) {
    if hosts.len() == 0 {
        (AliasStateView::Finished, AliasActionView::Finish)
    } else {
        (AliasStateView::NeedId { hosts }, AliasActionView::ResolveSelfId)
    }
}

/// The next step of a round. A lookup that fails ends it, and so does a failed disconnect; a
/// failed connect ends it like a successful one.
pub open spec fn sync_next(state: AliasStateView, event: AliasEventView) -> (
    AliasStateView,
    AliasActionView,
) {
    match (state, event) {
        (AliasStateView::NeedId { hosts }, AliasEventView::SelfId(Some(id))) => (
            AliasStateView::NeedAttached { hosts, id },
            AliasActionView::Inspect(id),
        ),
        (
            AliasStateView::NeedAttached { hosts, id },
            AliasEventView::Attached(Some(None)),
        ) => match plan_for(hosts, None, None) {
            PlanView::Connect(v) => (
                AliasStateView::NeedConnect,
                AliasActionView::Connect(id, v),
            ),
            _ => (AliasStateView::Finished, AliasActionView::Finish),
        },
        (
            AliasStateView::NeedAttached { hosts, id },
            AliasEventView::Attached(Some(Some(current))),
        ) => (AliasStateView::NeedName { hosts, id, current }, AliasActionView::ResolveSelfName),
        (
            AliasStateView::NeedName { hosts, id, current },
            AliasEventView::SelfName(name),
        ) => match plan_for(hosts, Some(current), name) {
            PlanView::Reconnect(aliases) => (
                AliasStateView::NeedDisconnect { id, aliases },
                AliasActionView::Disconnect(id),
            ),
            _ => (AliasStateView::Finished, AliasActionView::Finish),
        },
        (
            AliasStateView::NeedDisconnect { id, aliases },
            AliasEventView::Disconnected(true),
        ) => (AliasStateView::NeedConnect, AliasActionView::Connect(id, aliases)),
        _ => (AliasStateView::Finished, AliasActionView::Finish),
    }
}

/// Starts a round of keeping the aliases in step.
pub fn sync_self_aliases(hosts: Vec<String>) -> (r: (AliasState, AliasAction))
    ensures
        (r.0@, r.1@) == sync_start(hosts.deep_view()),
{
    assert(hosts.deep_view().len() == hosts@.len());
    if hosts.len() == 0 {
        (AliasState::Finished, AliasAction::Finish)
    } else {
        (AliasState::NeedId { hosts }, AliasAction::ResolveSelfId)
    }
}

/// Goes on with a round of keeping the aliases in step.
pub fn sync_self_aliases_step(state: AliasState, event: AliasEvent) -> (r: (
    AliasState,
    AliasAction,
))
    ensures
        (r.0@, r.1@) == sync_next(state@, event@),
{
    match (state, event) {
        (AliasState::NeedId { hosts }, AliasEvent::SelfId(Some(id))) => {
            let target: String = id.clone();
            (AliasState::NeedAttached { hosts, id }, AliasAction::Inspect(target))
        },
        (AliasState::NeedAttached { hosts, id }, AliasEvent::Attached(Some(attached))) => {
            match attached {
                None => match plan_self_aliases(&hosts, &attached, &None) {
                    AliasPlan::Connect(v) => (AliasState::NeedConnect, AliasAction::Connect(id, v)),
                    _ => (AliasState::Finished, AliasAction::Finish),
                },
                Some(current) => (
                    AliasState::NeedName { hosts, id, current },
                    AliasAction::ResolveSelfName,
                ),
            }
        },
        (AliasState::NeedName { hosts, id, current }, AliasEvent::SelfName(name)) => {
            let attached: Option<Vec<String>> = Some(current);
            match plan_self_aliases(&hosts, &attached, &name) {
                AliasPlan::Reconnect(aliases) => {
                    let target: String = id.clone();
                    (AliasState::NeedDisconnect { id, aliases }, AliasAction::Disconnect(target))
                },
                _ => (AliasState::Finished, AliasAction::Finish),
            }
        },
        (AliasState::NeedDisconnect { id, aliases }, AliasEvent::Disconnected(ok)) => {
            if ok {
                (AliasState::NeedConnect, AliasAction::Connect(id, aliases))
            } else {
                (AliasState::Finished, AliasAction::Finish)
            }
        },
        _ => (AliasState::Finished, AliasAction::Finish),
    }
}

// ---------------------------------------------------------------------------------------------
// Laws
// ---------------------------------------------------------------------------------------------

/// A filter whose property holds everywhere keeps everything.
proof fn lemma_filter_all(s: Seq<Seq<char>>, p: spec_fn(Seq<char>) -> bool)
    requires
        forall|x: Seq<char>| #[trigger] s.contains(x) ==> p(x),
    ensures
        s.filter(p) == s,
    decreases s.len(),
{
    reveal(Seq::filter);
    if s.len() > 0 {
        let init = s.drop_last();
        assert forall|x: Seq<char>| #[trigger] init.contains(x) implies p(x) by {
            assert(s[init.index_of(x)] == x);
            assert(s.contains(x));
        }
        lemma_filter_all(init, p);
        assert(s[s.len() - 1] == s.last());
        assert(s.contains(s.last()));
        assert(s == init.push(s.last()));
    }
}

/// A filter whose property holds nowhere keeps nothing.
proof fn lemma_filter_none(s: Seq<Seq<char>>, p: spec_fn(Seq<char>) -> bool)
    requires
        forall|x: Seq<char>| #[trigger] s.contains(x) ==> !p(x),
    ensures
        s.filter(p) == Seq::<Seq<char>>::empty(),
    decreases s.len(),
{
    reveal(Seq::filter);
    if s.len() > 0 {
        let init = s.drop_last();
        assert forall|x: Seq<char>| #[trigger] init.contains(x) implies !p(x) by {
            assert(s[init.index_of(x)] == x);
            assert(s.contains(x));
        }
        lemma_filter_none(init, p);
        assert(s[s.len() - 1] == s.last());
        assert(s.contains(s.last()));
    }
}

/// What a filter keeps.
proof fn lemma_filter_has(s: Seq<Seq<char>>, p: spec_fn(Seq<char>) -> bool, x: Seq<char>)
    ensures
        s.filter(p).contains(x) <==> s.contains(x) && p(x),
{
    if s.filter(p).contains(x) {
        s.lemma_filter_contains_rev(p, x);
    }
    if s.contains(x) && p(x) {
        s.lemma_filter_contains(p, s.index_of(x));
    }
}

proof fn lemma_with_new(v: Seq<Seq<char>>, more: Seq<Seq<char>>, x: Seq<char>)
    ensures
        with_new(v, more).contains(x) <==> v.contains(x) || more.contains(x),
    decreases more.len(),
{
    if more.len() > 0 {
        let init = more.drop_last();
        lemma_with_new(v, init, x);
        let before = with_new(v, init);
        let after = with_new(v, more);
        if before.contains(x) {
            assert(after[before.index_of(x)] == x);
        }
        if init.contains(x) {
            assert(more[init.index_of(x)] == x);
        }
        if x == more.last() {
            assert(more[more.len() - 1] == x);
            if !before.contains(x) {
                assert(after[before.len() as int] == x);
            }
        }
        if more.contains(x) && x != more.last() {
            assert(init[more.index_of(x)] == x);
        }
        if after.contains(x) && x != more.last() {
            assert(before[after.index_of(x)] == x);
        }
    }
}

/// The aliases to have: exactly the hosts, and the proxy's own name where it was there.
pub proof fn lemma_merged(
    hosts: Seq<Seq<char>>,
    current: Seq<Seq<char>>,
    name: Option<Seq<char>>,
    x: Seq<char>,
)
    ensures
        merged(hosts, current, name).contains(x) <==> hosts.contains(x) || (current.contains(x)
            && is_own_name(name, x)),
{
    let kept = current.filter(stays(hosts, name));
    let missing = hosts.filter(absent(current));
    order::lemma_sorted(with_new(kept, missing));
    lemma_with_new(kept, missing, x);
    lemma_filter_has(current, stays(hosts, name), x);
    lemma_filter_has(hosts, absent(current), x);
}

/// Where the plan changes nothing, the aliases are right already: all hosts are there, and beside
/// them at most the proxy's own name.
pub proof fn lemma_keep_is_right(
    hosts: Seq<Seq<char>>,
    current: Seq<Seq<char>>,
    name: Option<Seq<char>>,
    x: Seq<char>,
)
    requires
        hosts.len() > 0,
        plan_for(hosts, Some(current), name) == PlanView::Keep,
    ensures
        hosts.contains(x) ==> current.contains(x),
        current.contains(x) ==> hosts.contains(x) || is_own_name(name, x),
{
    lemma_merged(hosts, current, name, x);
    order::lemma_sorted(current);
}

/// Carrying the plan out is enough: once the proxy has the aliases that the plan connects it with,
/// the plan changes nothing.
pub proof fn lemma_plan_settles(
    hosts: Seq<Seq<char>>,
    attached: Option<Seq<Seq<char>>>,
    name: Option<Seq<char>>,
)
    ensures
        plan_for(hosts, attached, name) matches PlanView::Connect(v) ==> plan_for(
            hosts,
            Some(v),
            name,
        ) == PlanView::Keep,
        plan_for(hosts, attached, name) matches PlanView::Reconnect(v) ==> plan_for(
            hosts,
            Some(v),
            name,
        ) == PlanView::Keep,
{
    match plan_for(hosts, attached, name) {
        PlanView::Keep => {},
        PlanView::Connect(v) => {
            lemma_settled(hosts, v, name);
        },
        PlanView::Reconnect(v) => {
            let current = attached->0;
            assert forall|x: Seq<char>| #[trigger] v.contains(x) implies stays(hosts, name)(x) by {
                lemma_merged(hosts, current, name, x);
            }
            assert forall|x: Seq<char>| #[trigger] hosts.contains(x) implies v.contains(x) by {
                lemma_merged(hosts, current, name, x);
            }
            lemma_settled(hosts, v, name);
        },
    }
}

/// Aliases that all stay and lack no host are what the plan wants.
pub proof fn lemma_settled(hosts: Seq<Seq<char>>, v: Seq<Seq<char>>, name: Option<Seq<char>>)
    requires
        forall|x: Seq<char>| #[trigger] v.contains(x) ==> stays(hosts, name)(x),
        forall|x: Seq<char>| #[trigger] hosts.contains(x) ==> v.contains(x),
    ensures
        merged(hosts, v, name) == order::sorted(v),
{
    lemma_filter_all(v, stays(hosts, name));
    lemma_filter_none(hosts, absent(v));
}

proof fn lemma_with_names(v: Seq<Seq<char>>, more: Seq<Seq<char>>)
    requires
        v.no_duplicates(),
    ensures
        with_names(v, more).no_duplicates(),
        forall|x: Seq<char>| #[trigger]
            with_names(v, more).contains(x) <==> v.contains(x) || (more.contains(x) && x.len() > 0),
    decreases more.len(),
{
    if more.len() > 0 {
        let init = more.drop_last();
        lemma_with_names(v, init);
        let before = with_names(v, init);
        let after = with_names(v, more);
        assert forall|x: Seq<char>| #[trigger] after.contains(x) <==> v.contains(x) || (
        more.contains(x) && x.len() > 0) by {
            assert(before.contains(x) <==> v.contains(x) || (init.contains(x) && x.len() > 0));
            if before.contains(x) {
                assert(after[before.index_of(x)] == x);
            }
            if init.contains(x) {
                assert(more[init.index_of(x)] == x);
            }
            if x == more.last() {
                assert(more[more.len() - 1] == x);
                if x.len() > 0 && !before.contains(x) {
                    assert(after[before.len() as int] == x);
                }
            }
            if more.contains(x) && x != more.last() {
                assert(init[more.index_of(x)] == x);
            }
            if after.contains(x) && !before.contains(x) {
                let k = after.index_of(x);
                if k < before.len() {
                    assert(before[k] == x);
                }
            }
        }
    }
}

/// The hosts of a list of containers are exactly the names, other than empty ones, of their routes
/// and aliases, each once.
pub proof fn lemma_route_hosts(containers: Seq<ContainerView>)
    ensures
        order::sorted(names_of_all(containers)).no_duplicates(),
        sorted_by(order::sorted(names_of_all(containers)), order::lex()),
        forall|x: Seq<char>| #[trigger]
            order::sorted(names_of_all(containers)).contains(x) <==> x.len() > 0 && exists|i: int|
                0 <= i < containers.len() && names_of(#[trigger] containers[i]).contains(x),
{
    let names = names_of_all(containers);
    lemma_names_of_all(containers);
    order::lemma_sorted(names);
    let s = order::sorted(names);
    assert(s.no_duplicates()) by {
        names.lemma_multiset_has_no_duplicates();
        s.lemma_multiset_has_no_duplicates_conv();
    }
    assert forall|x: Seq<char>| #[trigger] s.contains(x) <==> x.len() > 0 && exists|i: int|
        0 <= i < containers.len() && names_of(#[trigger] containers[i]).contains(x) by {
        assert(s.contains(x) <==> names.contains(x));
    }
}

proof fn lemma_names_of_all(containers: Seq<ContainerView>)
    ensures
        names_of_all(containers).no_duplicates(),
        forall|x: Seq<char>| #[trigger]
            names_of_all(containers).contains(x) <==> x.len() > 0 && exists|i: int|
                0 <= i < containers.len() && names_of(#[trigger] containers[i]).contains(x),
    decreases containers.len(),
{
    if containers.len() > 0 {
        let init = containers.drop_last();
        let c = containers.last();
        lemma_names_of_all(init);
        lemma_with_names(names_of_all(init), names_of(c));
        assert forall|x: Seq<char>| #[trigger] names_of_all(containers).contains(x) <==> x.len()
            > 0 && exists|i: int|
            0 <= i < containers.len() && names_of(#[trigger] containers[i]).contains(x) by {
            if names_of_all(init).contains(x) {
                let i = choose|i: int|
                    0 <= i < init.len() && names_of(#[trigger] init[i]).contains(x);
                assert(names_of(containers[i]).contains(x));
            }
            if names_of(c).contains(x) {
                assert(names_of(containers[containers.len() - 1]).contains(x));
            }
            if exists|i: int|
                0 <= i < containers.len() && names_of(#[trigger] containers[i]).contains(x) {
                let i = choose|i: int|
                    0 <= i < containers.len() && names_of(#[trigger] containers[i]).contains(x);
                if i < init.len() {
                    assert(names_of(init[i]).contains(x));
                }
            }
        }
    }
}

} // verus!
