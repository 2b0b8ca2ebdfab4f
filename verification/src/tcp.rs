//! The TCP proxy: which ports are listened on, and what is done about a connection.

use crate::container;
use crate::container::{ContainerView, ManagedContainer, TcpExpose};
use crate::number;
use crate::router;
use crate::router::{Router, RouterView};
use crate::router_laws;
use crate::sessions::{Sessions, SessionsView};
use crate::text;
use crate::time::Duration;
use vstd::prelude::*;

verus! {

// ---------------------------------------------------------------------------------------------
// Listening
// ---------------------------------------------------------------------------------------------

/// The part of an address before its last `:`.
pub open spec fn host_part(addr: Seq<char>) -> Option<Seq<char>> {
    match text::cut_last(addr, ':') {
        Some((host, _)) => Some(host),
        None => None,
    }
}

/// The host that TCP is listened on: that of the HTTP address, or else all of them.
pub fn listen_host(listen: &str) -> (r: String)
    ensures
        r@ == (match host_part(listen@) {
            Some(host) => host,
            None => "0.0.0.0"@,
        }),
{
    match text::rsplit_once(listen, ':') {
        Some((host, _)) => host.to_string(),
        None => "0.0.0.0".to_string(),
    }
}

/// Ports that are not among `ports`.
pub open spec fn not_in(ports: Seq<u16>) -> spec_fn(u16) -> bool {
    |p: u16| !ports.contains(p)
}

/// Whether a port is among `ports`.
fn contains_port(ports: &Vec<u16>, port: u16) -> (r: bool)
    ensures
        r == ports@.contains(port),
{
    let mut i: usize = 0;
    while i < ports.len()
        invariant
            i <= ports@.len(),
            forall|j: int| 0 <= j < i ==> ports@[j] != port,
        decreases ports.len() - i,
    {
        if ports[i] == port {
            return true;
        }
        i = i + 1;
    }
    false
}

/// Those of `a` that are not in `b`.
fn ports_without(a: &Vec<u16>, b: &Vec<u16>) -> (r: Vec<u16>)
    ensures
        r@ == a@.filter(not_in(b@)),
{
    let ghost p = not_in(b@);
    let mut r: Vec<u16> = Vec::new();
    let mut i: usize = 0;
    proof {
        reveal(Seq::filter);
        assert(a@.take(0) == Seq::<u16>::empty());
    }
    while i < a.len()
        invariant
            i <= a@.len(),
            p == not_in(b@),
            r@ == a@.take(i as int).filter(p),
        decreases a.len() - i,
    {
        proof {
            reveal(Seq::filter);
            assert(a@.take(i + 1).drop_last() == a@.take(i as int));
        }
        if !contains_port(b, a[i]) {
            r.push(a[i]);
        }
        i = i + 1;
    }
    assert(a@.take(a@.len() as int) == a@);
    r
}

/// What changes about the ports that are listened on: first the ports to listen on from now on,
/// then the ports to listen on no more.
pub fn listener_changes(bound: &Vec<u16>, desired: &Vec<u16>) -> (r: (Vec<u16>, Vec<u16>))
    ensures
        r.0@ == desired@.filter(not_in(bound@)),
        r.1@ == bound@.filter(not_in(desired@)),
{
    (ports_without(desired, bound), ports_without(bound, desired))
}

/// Once the changes are made, the ports that are listened on are exactly those that should be.
pub proof fn lemma_listener_changes(bound: Seq<u16>, desired: Seq<u16>, port: u16)
    ensures
        ((bound.contains(port) && !bound.filter(not_in(desired)).contains(port)) || desired.filter(
            not_in(bound),
        ).contains(port)) <==> desired.contains(port),
{
    if bound.filter(not_in(desired)).contains(port) {
        bound.lemma_filter_contains_rev(not_in(desired), port);
    }
    if desired.filter(not_in(bound)).contains(port) {
        desired.lemma_filter_contains_rev(not_in(bound), port);
    }
    if bound.contains(port) && !desired.contains(port) {
        bound.lemma_filter_contains(not_in(desired), bound.index_of(port));
    }
    if desired.contains(port) && !bound.contains(port) {
        desired.lemma_filter_contains(not_in(bound), desired.index_of(port));
    }
}

// ---------------------------------------------------------------------------------------------
// States, events and actions
// ---------------------------------------------------------------------------------------------

/// How far a connection has come.
#[derive(Debug)]
pub enum Tunnel {
    /// The container is being started.
    Start { container: ManagedContainer, port: u16 },
    /// The connection to the container with this id is being made, and counts as a connection.
    Connecting { id: String },
    /// Bytes are being relayed, and count as a connection.
    Relaying { id: String },
    /// Nothing more is to be done.
    Done,
}

/// What happened to a connection.
#[derive(Debug)]
pub enum TunnelEvent {
    /// The address of the container, where it was started.
    Started(Option<String>),
    /// Whether the container was connected to.
    Connected(bool),
    /// One of the sides closed the connection.
    Closed,
}

/// What is to be done about a connection.
#[derive(Debug)]
pub enum TunnelAction {
    /// Start this container, to be used on this port.
    Start(ManagedContainer, u16),
    /// Connect to this address.
    Connect(String),
    /// Relay bytes in both directions.
    Relay,
    /// Close the connection.
    Close,
}

/// The mathematical value of a `Tunnel`.
#[verifier::ext_equal]
pub enum TunnelView {
    Start { container: ContainerView, port: u16 },
    Connecting { id: Seq<char> },
    Relaying { id: Seq<char> },
    Done,
}

impl View for Tunnel {
    type V = TunnelView;

    open spec fn view(&self) -> TunnelView {
        match self {
            Tunnel::Start { container, port } => TunnelView::Start {
                container: container@,
                port: *port,
            },
            Tunnel::Connecting { id } => TunnelView::Connecting { id: id@ },
            Tunnel::Relaying { id } => TunnelView::Relaying { id: id@ },
            Tunnel::Done => TunnelView::Done,
        }
    }
}

/// The mathematical value of a `TunnelEvent`.
#[verifier::ext_equal]
pub enum TunnelEventView {
    Started(Option<Seq<char>>),
    Connected(bool),
    Closed,
}

impl View for TunnelEvent {
    type V = TunnelEventView;

    open spec fn view(&self) -> TunnelEventView {
        match self {
            TunnelEvent::Started(addr) => TunnelEventView::Started(addr.deep_view()),
            TunnelEvent::Connected(ok) => TunnelEventView::Connected(*ok),
            TunnelEvent::Closed => TunnelEventView::Closed,
        }
    }
}

/// The mathematical value of a `TunnelAction`.
#[verifier::ext_equal]
pub enum TunnelActionView {
    Start(ContainerView, u16),
    Connect(Seq<char>),
    Relay,
    Close,
}

impl View for TunnelAction {
    type V = TunnelActionView;

    open spec fn view(&self) -> TunnelActionView {
        match self {
            TunnelAction::Start(c, port) => TunnelActionView::Start(c@, *port),
            TunnelAction::Connect(addr) => TunnelActionView::Connect(addr@),
            TunnelAction::Relay => TunnelActionView::Relay,
            TunnelAction::Close => TunnelActionView::Close,
        }
    }
}

// ---------------------------------------------------------------------------------------------
// The course of a connection
// ---------------------------------------------------------------------------------------------

/// Where a connection is, what is to be done about it, and the sessions.
#[verifier::ext_equal]
pub struct TunnelCourse {
    pub state: TunnelView,
    pub action: TunnelActionView,
    pub sessions: SessionsView,
}

/// The connection is closed.
pub open spec fn closed(sessions: SessionsView) -> TunnelCourse {
    TunnelCourse { state: TunnelView::Done, action: TunnelActionView::Close, sessions }
}

/// The port of the container that the first entry for a listening port names.
pub open spec fn container_port(exposes: Seq<TcpExpose>, listen_port: u16) -> Option<u16>
    decreases exposes.len(),
{
    if exposes.len() == 0 {
        None
    } else if exposes[0].listen_port == listen_port {
        Some(exposes[0].container_port)
    } else {
        container_port(exposes.skip(1), listen_port)
    }
}

/// What is done about a connection to a listening port when it is made: its container is started,
/// and that counts as an access. Without a container the connection is closed.
pub open spec fn tunnel_arrival(
    listen_port: u16,
    router: RouterView,
    sessions: SessionsView,
    now: Duration,
) -> TunnelCourse {
    match router::chosen_container(router::behind(router.tcp, listen_port)) {
        None => closed(sessions),
        Some(c) => match container_port(c.tcp_expose, listen_port) {
            None => closed(sessions),
            Some(port) => TunnelCourse {
                state: TunnelView::Start { container: c, port },
                action: TunnelActionView::Start(c, port),
                sessions: sessions.touched(c.id, c.session_duration, now),
            },
        },
    }
}

/// The address that is connected to: the host of the container's address with the port of the
/// container.
pub open spec fn tunnel_target(addr: Seq<char>, port: u16) -> Seq<char> {
    let host = match host_part(addr) {
        Some(host) => host,
        None => addr,
    };
    container::host_port(host, port)
}

/// What is done next about a connection.
pub open spec fn tunnel_progress(
    state: TunnelView,
    event: TunnelEventView,
    sessions: SessionsView,
) -> TunnelCourse {
    match (state, event) {
        (
            TunnelView::Start { container, port },
            TunnelEventView::Started(Some(addr)),
        ) => TunnelCourse {
            state: TunnelView::Connecting { id: container.id },
            action: TunnelActionView::Connect(tunnel_target(addr, port)),
            sessions: sessions.connected(container.id),
        },
        (TunnelView::Connecting { id }, TunnelEventView::Connected(true)) => TunnelCourse {
            state: TunnelView::Relaying { id },
            action: TunnelActionView::Relay,
            sessions,
        },
        (TunnelView::Connecting { id }, _) => closed(sessions.disconnected(id)),
        (TunnelView::Relaying { id }, _) => closed(sessions.disconnected(id)),
        _ => closed(sessions),
    }
}

/// The container that a step counts a new connection for.
pub open spec fn new_tunnel(state: TunnelView, event: TunnelEventView) -> Option<Seq<char>> {
    match (state, event) {
        (TunnelView::Start { container, .. }, TunnelEventView::Started(Some(_))) => Some(
            container.id,
        ),
        _ => None,
    }
}

/// The port of the container that the first entry for a listening port names.
fn find_port(exposes: &Vec<TcpExpose>, listen_port: u16) -> (r: Option<u16>)
    ensures
        r == container_port(exposes.deep_view(), listen_port),
{
    let ghost all = exposes.deep_view();
    let mut i: usize = 0;
    assert(all.skip(0) == all);
    while i < exposes.len()
        invariant
            i <= exposes@.len(),
            all == exposes.deep_view(),
            container_port(all, listen_port) == container_port(all.skip(i as int), listen_port),
        decreases exposes.len() - i,
    {
        assert(all.skip(i as int)[0] == exposes@[i as int]);
        if exposes[i].listen_port == listen_port {
            return Some(exposes[i].container_port);
        }
        assert(all.skip(i as int).skip(1) == all.skip(i + 1));
        i = i + 1;
    }
    None
}

/// Decides what is done about a connection to a listening port, and records the access to its
/// container.
pub fn handle_conn(
    listen_port: u16,
    router: &Router,
    sessions: &mut Sessions,
    now: Duration,
) -> (r: (Tunnel, TunnelAction))
    ensures
        (TunnelCourse { state: r.0@, action: r.1@, sessions: final(sessions)@ })
            == tunnel_arrival(listen_port, router@, old(sessions)@, now),
        old(sessions)@.wf() ==> final(sessions)@.wf(),
{
    match router.resolve_tcp(listen_port) {
        None => (Tunnel::Done, TunnelAction::Close),
        Some(container) => match find_port(&container.tcp_expose, listen_port) {
            None => (Tunnel::Done, TunnelAction::Close),
            Some(port) => {
                sessions.touch(container.id.as_str(), container.session_duration, now);
                let target: ManagedContainer = container.clone();
                (Tunnel::Start { container, port }, TunnelAction::Start(target, port))
            },
        },
    }
}

/// Writes the address that is connected to.
fn join_target(addr: &str, port: u16) -> (r: String)
    ensures
        r@ == tunnel_target(addr@, port),
{
    match text::rsplit_once(addr, ':') {
        Some((host, _)) => container::join_host_port(host, port),
        None => container::join_host_port(addr, port),
    }
}

/// Goes on with a connection.
pub fn handle_conn_step(state: Tunnel, event: TunnelEvent, sessions: &mut Sessions) -> (r: (
    Tunnel,
    TunnelAction,
))
    requires
        new_tunnel(state@, event@) matches Some(id) ==> old(sessions)@.connections(id)
            < usize::MAX,
    ensures
        (TunnelCourse { state: r.0@, action: r.1@, sessions: final(sessions)@ })
            == tunnel_progress(state@, event@, old(sessions)@),
        old(sessions)@.wf() ==> final(sessions)@.wf(),
{
    match (state, event) {
        (Tunnel::Start { container, port }, TunnelEvent::Started(Some(addr))) => {
            sessions.connect(container.id.as_str());
            let target: String = join_target(addr.as_str(), port);
            (Tunnel::Connecting { id: container.id }, TunnelAction::Connect(target))
        },
        (Tunnel::Connecting { id }, event) => match event {
            TunnelEvent::Connected(true) => (Tunnel::Relaying { id }, TunnelAction::Relay),
            _ => {
                sessions.disconnect(id.as_str());
                (Tunnel::Done, TunnelAction::Close)
            },
        },
        (Tunnel::Relaying { id }, _) => {
            sessions.disconnect(id.as_str());
            (Tunnel::Done, TunnelAction::Close)
        },
        _ => (Tunnel::Done, TunnelAction::Close),
    }
}

// ---------------------------------------------------------------------------------------------
// Laws
// ---------------------------------------------------------------------------------------------

/// The container that a connection counts for.
pub open spec fn counted(state: TunnelView) -> Option<Seq<char>> {
    match state {
        TunnelView::Connecting { id } => Some(id),
        TunnelView::Relaying { id } => Some(id),
        _ => None,
    }
}

/// The connections of a container without the one that is counted here.
pub open spec fn others(state: TunnelView, sessions: SessionsView, id: Seq<char>) -> int {
    sessions.connections(id) - if counted(state) == Some(id) {
        1int
    } else {
        0int
    }
}

/// At every step a connection counts at most once, and takes back what it counted.
pub proof fn lemma_tunnel_balance(
    state: TunnelView,
    event: TunnelEventView,
    sessions: SessionsView,
    id: Seq<char>,
)
    requires
        new_tunnel(state, event) matches Some(x) ==> sessions.connections(x) < usize::MAX,
        counted(state) matches Some(x) ==> sessions.connections(x) > 0,
    ensures
        ({
            let next = tunnel_progress(state, event, sessions);
            &&& others(next.state, next.sessions, id) == others(state, sessions, id)
            &&& counted(next.state) matches Some(x) ==> next.sessions.connections(x) > 0
        }),
{
    match new_tunnel(state, event) {
        Some(x) => {
            crate::sessions::lemma_connect_counts(sessions, x, id);
        },
        None => {},
    }
    match counted(state) {
        Some(x) => {
            crate::sessions::lemma_disconnect_counts(sessions, x, id);
        },
        None => {},
    }
}

/// A container behind a port has an entry for it: the connection goes to the container's port.
pub proof fn lemma_forwarded_has_port(c: ContainerView, listen_port: u16)
    requires
        router_laws::exposes(c, listen_port),
    ensures
        container_port(c.tcp_expose, listen_port) is Some,
{
    let i = choose|i: int|
        0 <= i < c.tcp_expose.len() && (#[trigger] c.tcp_expose[i]).listen_port == listen_port;
    lemma_container_port(c.tcp_expose, listen_port, i);
}

/// The containers behind a port are those of the list that it is forwarded to.
proof fn lemma_forwarded(containers: Seq<ContainerView>, port: u16)
    ensures
        forall|k: int|
            0 <= k < router_laws::forwarded(containers, port).len() ==> containers.contains(
                #[trigger] router_laws::forwarded(containers, port)[k],
            ) && router_laws::exposes(router_laws::forwarded(containers, port)[k], port),
        (exists|i: int| 0 <= i < containers.len() && router_laws::exposes(
            #[trigger] containers[i],
            port,
        )) ==> router_laws::forwarded(containers, port).len() > 0,
    decreases containers.len(),
{
    if containers.len() > 0 {
        let init = containers.drop_last();
        let c = containers.last();
        lemma_forwarded(init, port);
        let before = router_laws::forwarded(init, port);
        let after = router_laws::forwarded(containers, port);
        assert forall|k: int| 0 <= k < after.len() implies containers.contains(#[trigger] after[k])
            && router_laws::exposes(after[k], port) by {
            if k < before.len() {
                assert(after[k] == before[k]);
                assert(init.contains(before[k]));
                assert(containers[init.index_of(before[k])] == before[k]);
            } else {
                assert(containers[containers.len() - 1] == c);
            }
        }
        if exists|i: int| 0 <= i < containers.len() && router_laws::exposes(
            #[trigger] containers[i],
            port,
        ) {
            let i = choose|i: int|
                0 <= i < containers.len() && router_laws::exposes(#[trigger] containers[i], port);
            if i < init.len() {
                assert(router_laws::exposes(init[i], port));
            } else if router::has_id(before, c.id) {
                assert(before.len() > 0);
            }
        }
    }
}

/// A connection to a port that some container is forwarded to from has such a container started
/// for it, on the port that the container names.
pub proof fn lemma_listened_port_is_served(
    containers: Seq<ContainerView>,
    r: RouterView,
    listen_port: u16,
    sessions: SessionsView,
    now: Duration,
    i: int,
)
    requires
        r.tcp == router::tcp_routes_of(containers),
        0 <= i < containers.len(),
        router_laws::exposes(containers[i], listen_port),
    ensures
        tunnel_arrival(listen_port, r, sessions, now).action matches TunnelActionView::Start(
            c,
            port,
        ) && containers.contains(c) && container_port(c.tcp_expose, listen_port) == Some(port),
{
    router_laws::lemma_tcp_routes(containers, listen_port);
    lemma_forwarded(containers, listen_port);
    let v = router_laws::forwarded(containers, listen_port);
    router_laws::lemma_chosen_container(v);
    let c = router::chosen_container(v)->0;
    assert(v.contains(c));
    let k = v.index_of(c);
    assert(router_laws::exposes(v[k], listen_port));
    lemma_forwarded_has_port(c, listen_port);
}

/// The address that a container is ready at, with whatever port, gives the host to connect to.
pub proof fn lemma_tunnel_target(ip: Seq<char>, ready_port: u16, port: u16)
    ensures
        tunnel_target(container::host_port(ip, ready_port), port) == container::host_port(ip, port),
{
    let d = number::decimal_of(ready_port as nat);
    number::lemma_decimal_value(ready_port as nat);
    assert forall|i: int| 0 <= i < d.len() implies d[i] != ':' by {
        assert(number::is_digit(d[i]));
    }
    text::lemma_cut_last(ip, d, ':');
}

proof fn lemma_container_port(exposes: Seq<TcpExpose>, listen_port: u16, i: int)
    requires
        0 <= i < exposes.len(),
        exposes[i].listen_port == listen_port,
    ensures
        container_port(exposes, listen_port) is Some,
    decreases exposes.len(),
{
    if exposes[0].listen_port != listen_port {
        assert(exposes.skip(1)[i - 1] == exposes[i]);
        lemma_container_port(exposes.skip(1), listen_port, i - 1);
    }
}

} // verus!
