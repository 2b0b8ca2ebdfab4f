//! The HTTP proxy: what is done about a request, from its arrival to its end.

use crate::container;
use crate::container::{ContainerView, ManagedContainer};
use crate::http;
use crate::http::{Forward, ForwardView, RequestHead, RequestView};
use crate::router;
use crate::router::{ResultView, RouteResult, Router, RouterView};
use crate::router_laws;
use crate::sessions::{Sessions, SessionsView};
use crate::text;
use crate::time::Duration;
use vstd::prelude::*;

verus! {

// ---------------------------------------------------------------------------------------------
// States, events and actions
// ---------------------------------------------------------------------------------------------

/// An answer of the proxy itself.
#[derive(Debug, Clone, Copy)]
pub struct Reply {
    pub status: u16,
    pub body: &'static str,
}

/// How far an exchange has come.
#[derive(Debug)]
pub enum Exchange {
    /// The group of the container is being started.
    GroupStart { container: ManagedContainer, port: u16, ws: bool },
    /// The container is being started.
    Start { container: ManagedContainer, port: u16, ws: bool },
    /// The request was sent to the container with this id, and counts as a connection.
    Sent { id: String },
    /// The request was sent to a static target.
    SentStatic,
    /// The WebSocket request was sent to the container with this id.
    UpgradeSent { id: String },
    /// The WebSocket request was sent to a static target.
    UpgradeSentStatic,
    /// The container agreed to a WebSocket; its connection is being taken over.
    Upgrading { id: String },
    /// The static target agreed to a WebSocket; its connection is being taken over.
    UpgradingStatic,
    /// The body of the answer or the WebSocket is being relayed, and counts as a connection.
    Open { id: String },
    /// Nothing more is to be done.
    Done,
}

/// What happened to an exchange.
#[derive(Debug)]
pub enum ExchangeEvent {
    /// Whether the group was started.
    GroupStarted(bool),
    /// The address of the container, where it was started.
    Started(Option<String>),
    /// The status of the answer, where there was one.
    Answered(Option<u16>),
    /// Whether the connection could be taken over.
    Upgraded(bool),
    /// What was relayed came to its end, or the client is gone.
    Closed,
}

/// What is to be done about an exchange.
#[derive(Debug)]
pub enum ExchangeAction {
    /// Answer the client.
    Reply(Reply),
    /// Start this group.
    StartGroup(String),
    /// Start this container, to be used on this port.
    Start(ManagedContainer, u16),
    /// Send this request, with the body of the client's.
    Send(Forward),
    /// Send this WebSocket request, without a body.
    SendUpgrade(Forward),
    /// Hand on the answer: status, headers and body.
    Relay,
    /// Hand on the answer without its headers.
    RelayBare,
    /// Take the connection over.
    Upgrade,
    /// Answer the client that the protocols are switched, and relay the WebSocket.
    Bridge,
    /// Do nothing more.
    Finish,
}

/// The mathematical value of an `Exchange`.
#[verifier::ext_equal]
pub enum ExchangeView {
    GroupStart { container: ContainerView, port: u16, ws: bool },
    Start { container: ContainerView, port: u16, ws: bool },
    Sent { id: Seq<char> },
    SentStatic,
    UpgradeSent { id: Seq<char> },
    UpgradeSentStatic,
    Upgrading { id: Seq<char> },
    UpgradingStatic,
    Open { id: Seq<char> },
    Done,
}

impl View for Exchange {
    type V = ExchangeView;

    open spec fn view(&self) -> ExchangeView {
        match self {
            Exchange::GroupStart { container, port, ws } => ExchangeView::GroupStart {
                container: container@,
                port: *port,
                ws: *ws,
            },
            Exchange::Start { container, port, ws } => ExchangeView::Start {
                container: container@,
                port: *port,
                ws: *ws,
            },
            Exchange::Sent { id } => ExchangeView::Sent { id: id@ },
            Exchange::SentStatic => ExchangeView::SentStatic,
            Exchange::UpgradeSent { id } => ExchangeView::UpgradeSent { id: id@ },
            Exchange::UpgradeSentStatic => ExchangeView::UpgradeSentStatic,
            Exchange::Upgrading { id } => ExchangeView::Upgrading { id: id@ },
            Exchange::UpgradingStatic => ExchangeView::UpgradingStatic,
            Exchange::Open { id } => ExchangeView::Open { id: id@ },
            Exchange::Done => ExchangeView::Done,
        }
    }
}

/// The mathematical value of an `ExchangeEvent`.
#[verifier::ext_equal]
pub enum ExchangeEventView {
    GroupStarted(bool),
    Started(Option<Seq<char>>),
    Answered(Option<u16>),
    Upgraded(bool),
    Closed,
}

impl View for ExchangeEvent {
    type V = ExchangeEventView;

    open spec fn view(&self) -> ExchangeEventView {
        match self {
            ExchangeEvent::GroupStarted(ok) => ExchangeEventView::GroupStarted(*ok),
            ExchangeEvent::Started(addr) => ExchangeEventView::Started(addr.deep_view()),
            ExchangeEvent::Answered(status) => ExchangeEventView::Answered(*status),
            ExchangeEvent::Upgraded(ok) => ExchangeEventView::Upgraded(*ok),
            ExchangeEvent::Closed => ExchangeEventView::Closed,
        }
    }
}

/// The mathematical value of an `ExchangeAction`.
#[verifier::ext_equal]
pub enum ExchangeActionView {
    Reply(u16, Seq<char>),
    StartGroup(Seq<char>),
    Start(ContainerView, u16),
    Send(ForwardView),
    SendUpgrade(ForwardView),
    Relay,
    RelayBare,
    Upgrade,
    Bridge,
    Finish,
}

impl View for ExchangeAction {
    type V = ExchangeActionView;

    open spec fn view(&self) -> ExchangeActionView {
        match self {
            ExchangeAction::Reply(r) => ExchangeActionView::Reply(r.status, r.body@),
            ExchangeAction::StartGroup(group) => ExchangeActionView::StartGroup(group@),
            ExchangeAction::Start(c, port) => ExchangeActionView::Start(c@, *port),
            ExchangeAction::Send(f) => ExchangeActionView::Send(f@),
            ExchangeAction::SendUpgrade(f) => ExchangeActionView::SendUpgrade(f@),
            ExchangeAction::Relay => ExchangeActionView::Relay,
            ExchangeAction::RelayBare => ExchangeActionView::RelayBare,
            ExchangeAction::Upgrade => ExchangeActionView::Upgrade,
            ExchangeAction::Bridge => ExchangeActionView::Bridge,
            ExchangeAction::Finish => ExchangeActionView::Finish,
        }
    }
}

// ---------------------------------------------------------------------------------------------
// The course of an exchange
// ---------------------------------------------------------------------------------------------

/// Where an exchange is, what is to be done about it, and the sessions.
#[verifier::ext_equal]
pub struct Course {
    pub state: ExchangeView,
    pub action: ExchangeActionView,
    pub sessions: SessionsView,
}

/// The proxy answers itself, and the exchange is over.
pub open spec fn answer(status: u16, body: Seq<char>, sessions: SessionsView) -> Course {
    Course {
        state: ExchangeView::Done,
        action: ExchangeActionView::Reply(status, body),
        sessions,
    }
}

/// The container, or its group, could not be started.
pub open spec fn start_failed(sessions: SessionsView) -> Course {
    answer(504, "container failed to start"@, sessions)
}

/// No answer came.
pub open spec fn backend_failed(sessions: SessionsView) -> Course {
    answer(502, "backend error"@, sessions)
}

/// The connection could not be taken over.
pub open spec fn upgrade_failed(sessions: SessionsView) -> Course {
    answer(502, "upgrade failed"@, sessions)
}

/// Nothing more is to be done.
pub open spec fn finish(sessions: SessionsView) -> Course {
    Course { state: ExchangeView::Done, action: ExchangeActionView::Finish, sessions }
}

/// What is done about a request when it arrives.
///
/// The proxy's own health check is answered at once, and so is a request that no route is there
/// for. A request for a static target is sent on. One for a container counts as an access, and the
/// group of the container is started before the container itself.
pub open spec fn arrival(
    req: RequestView,
    router: RouterView,
    sessions: SessionsView,
    now: Duration,
) -> Course {
    if req.path == "/healthz"@ {
        answer(200, "ok\n"@, sessions)
    } else {
        let ws = http::asks_for_websocket(req);
        match router.resolution(http::host_of(req)) {
            None => answer(404, "no route for host"@, sessions),
            Some(ResultView::Static(t)) => {
                let addr = container::host_port(t.ip, t.port);
                if ws {
                    Course {
                        state: ExchangeView::UpgradeSentStatic,
                        action: ExchangeActionView::SendUpgrade(http::static_upgrade(req, addr)),
                        sessions,
                    }
                } else {
                    Course {
                        state: ExchangeView::SentStatic,
                        action: ExchangeActionView::Send(http::static_forward(req, addr)),
                        sessions,
                    }
                }
            },
            Some(ResultView::Dynamic(c, port)) => {
                let touched = sessions.touched(c.id, c.session_duration, now);
                match c.group {
                    Some(group) => Course {
                        state: ExchangeView::GroupStart { container: c, port, ws },
                        action: ExchangeActionView::StartGroup(group),
                        sessions: touched,
                    },
                    None => Course {
                        state: ExchangeView::Start { container: c, port, ws },
                        action: ExchangeActionView::Start(c, port),
                        sessions: touched,
                    },
                }
            },
        }
    }
}

/// What is done next about an exchange.
pub open spec fn progress(
    req: RequestView,
    state: ExchangeView,
    event: ExchangeEventView,
    sessions: SessionsView,
) -> Course {
    match (state, event) {
        (
            ExchangeView::GroupStart { container, port, ws },
            ExchangeEventView::GroupStarted(ok),
        ) => if ok {
            Course {
                state: ExchangeView::Start { container, port, ws },
                action: ExchangeActionView::Start(container, port),
                sessions,
            }
        } else {
            start_failed(sessions)
        },
        (
            ExchangeView::Start { container, port, ws },
            ExchangeEventView::Started(Some(addr)),
        ) => if ws {
            Course {
                state: ExchangeView::UpgradeSent { id: container.id },
                action: ExchangeActionView::SendUpgrade(http::container_upgrade(req, addr)),
                sessions,
            }
        } else {
            Course {
                state: ExchangeView::Sent { id: container.id },
                action: ExchangeActionView::Send(http::container_forward(req, addr)),
                sessions: sessions.connected(container.id),
            }
        },
        (
            ExchangeView::Start { container, port, ws },
            ExchangeEventView::Started(None),
        ) => start_failed(sessions),
        (ExchangeView::Sent { id }, ExchangeEventView::Answered(Some(_))) => Course {
            state: ExchangeView::Open { id },
            action: ExchangeActionView::Relay,
            sessions,
        },
        (ExchangeView::Sent { id }, _) => backend_failed(sessions.disconnected(id)),
        (ExchangeView::SentStatic, ExchangeEventView::Answered(Some(_))) => Course {
            state: ExchangeView::Done,
            action: ExchangeActionView::Relay,
            sessions,
        },
        (ExchangeView::SentStatic, ExchangeEventView::Answered(None)) => backend_failed(sessions),
        (
            ExchangeView::UpgradeSent { id },
            ExchangeEventView::Answered(Some(status)),
        ) => if status == 101 {
            Course {
                state: ExchangeView::Upgrading { id },
                action: ExchangeActionView::Upgrade,
                sessions,
            }
        } else {
            Course { state: ExchangeView::Done, action: ExchangeActionView::RelayBare, sessions }
        },
        (ExchangeView::UpgradeSent { id }, ExchangeEventView::Answered(None)) => backend_failed(
            sessions,
        ),
        (
            ExchangeView::UpgradeSentStatic,
            ExchangeEventView::Answered(Some(status)),
        ) => if status == 101 {
            Course {
                state: ExchangeView::UpgradingStatic,
                action: ExchangeActionView::Upgrade,
                sessions,
            }
        } else {
            Course { state: ExchangeView::Done, action: ExchangeActionView::RelayBare, sessions }
        },
        (ExchangeView::UpgradeSentStatic, ExchangeEventView::Answered(None)) => backend_failed(
            sessions,
        ),
        (ExchangeView::Upgrading { id }, ExchangeEventView::Upgraded(ok)) => if ok {
            Course {
                state: ExchangeView::Open { id },
                action: ExchangeActionView::Bridge,
                sessions: sessions.connected(id),
            }
        } else {
            upgrade_failed(sessions)
        },
        (ExchangeView::UpgradingStatic, ExchangeEventView::Upgraded(ok)) => if ok {
            Course { state: ExchangeView::Done, action: ExchangeActionView::Bridge, sessions }
        } else {
            upgrade_failed(sessions)
        },
        (ExchangeView::Open { id }, _) => finish(sessions.disconnected(id)),
        _ => finish(sessions),
    }
}

/// The container that a step counts a new connection for.
pub open spec fn new_connection(state: ExchangeView, event: ExchangeEventView) -> Option<
    Seq<char>,
> {
    match (state, event) {
        (
            ExchangeView::Start { container, ws: false, .. },
            ExchangeEventView::Started(Some(_)),
        ) => Some(container.id),
        (ExchangeView::Upgrading { id }, ExchangeEventView::Upgraded(true)) => Some(id),
        _ => None,
    }
}

/// An answer of the proxy itself.
fn reply(status: u16, body: &'static str) -> (r: (Exchange, ExchangeAction))
    ensures
        r.0@ == ExchangeView::Done,
        r.1@ == ExchangeActionView::Reply(status, body@),
{
    (Exchange::Done, ExchangeAction::Reply(Reply { status, body }))
}

/// Decides what is done about a request when it arrives, and records the access to its container.
pub fn handle(req: &RequestHead, router: &Router, sessions: &mut Sessions, now: Duration) -> (r: (
    Exchange,
    ExchangeAction,
))
    ensures
        (Course { state: r.0@, action: r.1@, sessions: final(sessions)@ }) == arrival(
            req@,
            router@,
            old(sessions)@,
            now,
        ),
        old(sessions)@.wf() ==> final(sessions)@.wf(),
{
    if text::equal(req.path.as_str(), "/healthz") {
        return reply(200, "ok\n");
    }
    let host: String = http::resolve_host(req);
    let route: RouteResult = match router.resolve_with_static(host.as_str()) {
        Some(route) => route,
        None => {
            return reply(404, "no route for host");
        },
    };
    let ws: bool = http::is_websocket(req);
    match route {
        RouteResult::Static(t) => {
            let addr: String = container::join_host_port(t.ip.as_str(), t.port);
            if ws {
                (
                    Exchange::UpgradeSentStatic,
                    ExchangeAction::SendUpgrade(http::upgrade_to_static(req, addr.as_str())),
                )
            } else {
                (
                    Exchange::SentStatic,
                    ExchangeAction::Send(http::forward_to_static(req, addr.as_str())),
                )
            }
        },
        RouteResult::Dynamic(boxed, port) => {
            let container: ManagedContainer = *boxed;
            sessions.touch(container.id.as_str(), container.session_duration, now);
            let group: Option<String> = container::copy_text(&container.group);
            match group {
                Some(group) => (
                    Exchange::GroupStart { container, port, ws },
                    ExchangeAction::StartGroup(group),
                ),
                None => {
                    let target: ManagedContainer = container.clone();
                    (
                        Exchange::Start { container, port, ws },
                        ExchangeAction::Start(target, port),
                    )
                },
            }
        },
    }
}

/// Goes on with an exchange.
pub fn handle_step(
    req: &RequestHead,
    state: Exchange,
    event: ExchangeEvent,
    sessions: &mut Sessions,
) -> (r: (Exchange, ExchangeAction))
    requires
        new_connection(state@, event@) matches Some(id) ==> old(sessions)@.connections(id)
            < usize::MAX,
    ensures
        (Course { state: r.0@, action: r.1@, sessions: final(sessions)@ }) == progress(
            req@,
            state@,
            event@,
            old(sessions)@,
        ),
        old(sessions)@.wf() ==> final(sessions)@.wf(),
{
    match (state, event) {
        (Exchange::GroupStart { container, port, ws }, ExchangeEvent::GroupStarted(ok)) => if ok {
            let target: ManagedContainer = container.clone();
            (Exchange::Start { container, port, ws }, ExchangeAction::Start(target, port))
        } else {
            reply(504, "container failed to start")
        },
        (Exchange::Start { container, port, ws }, ExchangeEvent::Started(started)) => match started {
            Some(addr) => if ws {
                (
                    Exchange::UpgradeSent { id: container.id },
                    ExchangeAction::SendUpgrade(http::upgrade_to_container(req, addr.as_str())),
                )
            } else {
                sessions.connect(container.id.as_str());
                (
                    Exchange::Sent { id: container.id },
                    ExchangeAction::Send(http::forward_to_container(req, addr.as_str())),
                )
            },
            None => reply(504, "container failed to start"),
        },
        (Exchange::Sent { id }, event) => match event {
            ExchangeEvent::Answered(Some(_)) => (Exchange::Open { id }, ExchangeAction::Relay),
            _ => {
                sessions.disconnect(id.as_str());
                reply(502, "backend error")
            },
        },
        (Exchange::SentStatic, ExchangeEvent::Answered(answered)) => match answered {
            Some(_) => (Exchange::Done, ExchangeAction::Relay),
            None => reply(502, "backend error"),
        },
        (Exchange::UpgradeSent { id }, ExchangeEvent::Answered(answered)) => match answered {
            Some(status) => if status == 101 {
                (Exchange::Upgrading { id }, ExchangeAction::Upgrade)
            } else {
                (Exchange::Done, ExchangeAction::RelayBare)
            },
            None => reply(502, "backend error"),
        },
        (Exchange::UpgradeSentStatic, ExchangeEvent::Answered(answered)) => match answered {
            Some(status) => if status == 101 {
                (Exchange::UpgradingStatic, ExchangeAction::Upgrade)
            } else {
                (Exchange::Done, ExchangeAction::RelayBare)
            },
            None => reply(502, "backend error"),
        },
        (Exchange::Upgrading { id }, ExchangeEvent::Upgraded(ok)) => if ok {
            sessions.connect(id.as_str());
            (Exchange::Open { id }, ExchangeAction::Bridge)
        } else {
            reply(502, "upgrade failed")
        },
        (Exchange::UpgradingStatic, ExchangeEvent::Upgraded(ok)) => if ok {
            (Exchange::Done, ExchangeAction::Bridge)
        } else {
            reply(502, "upgrade failed")
        },
        (Exchange::Open { id }, _) => {
            sessions.disconnect(id.as_str());
            (Exchange::Done, ExchangeAction::Finish)
        },
        _ => (Exchange::Done, ExchangeAction::Finish),
    }
}

// ---------------------------------------------------------------------------------------------
// Laws
// ---------------------------------------------------------------------------------------------

/// The proxy's own health check is answered whatever the routes are, and touches no session.
pub proof fn lemma_healthz(
    req: RequestView,
    router: RouterView,
    sessions: SessionsView,
    now: Duration,
)
    requires
        req.path == "/healthz"@,
    ensures
        arrival(req, router, sessions, now) == answer(200, "ok\n"@, sessions),
{
}

/// A request for a host without a route is refused, and touches no session.
pub proof fn lemma_no_route(
    req: RequestView,
    router: RouterView,
    sessions: SessionsView,
    now: Duration,
)
    requires
        req.path != "/healthz"@,
        router.resolution(http::host_of(req)) is None,
    ensures
        arrival(req, router, sessions, now) == answer(404, "no route for host"@, sessions),
{
}

/// A request for a host that some container answers for is never refused: a container that answers
/// for the host, or its group, is started for it.
pub proof fn lemma_answered_host_is_served(
    containers: Seq<ContainerView>,
    req: RequestView,
    r: RouterView,
    sessions: SessionsView,
    now: Duration,
    i: int,
)
    requires
        r.routes == router::routes_of(containers),
        req.path != "/healthz"@,
        0 <= i < containers.len(),
        router_laws::answers_for(containers[i], http::host_of(req)),
    ensures
        ({
            let course = arrival(req, r, sessions, now);
            &&& course.action is Start || course.action is StartGroup
            &&& course.action matches ExchangeActionView::Start(c, _) ==> containers.contains(c)
                && router_laws::answers_for(c, http::host_of(req))
            &&& course.state matches ExchangeView::GroupStart { container, .. }
                ==> containers.contains(container) && router_laws::answers_for(
                container,
                http::host_of(req),
            )
        }),
{
    router_laws::lemma_answered_host_resolves(containers, r, http::host_of(req), i);
}

/// A request for a container counts as an access, whatever becomes of it.
pub proof fn lemma_access_counts(
    req: RequestView,
    router: RouterView,
    sessions: SessionsView,
    now: Duration,
    c: ContainerView,
    port: u16,
)
    requires
        req.path != "/healthz"@,
        router.resolution(http::host_of(req)) == Some(ResultView::Dynamic(c, port)),
    ensures
        arrival(req, router, sessions, now).sessions == sessions.touched(
            c.id,
            c.session_duration,
            now,
        ),
{
}

/// A request for a static target leaves the sessions alone at every step, and no container is
/// started for it.
pub proof fn lemma_static_leaves_sessions(
    req: RequestView,
    router: RouterView,
    sessions: SessionsView,
    now: Duration,
    event: ExchangeEventView,
)
    requires
        router.resolution(http::host_of(req)) matches Some(ResultView::Static(_)),
    ensures
        ({
            let first = arrival(req, router, sessions, now);
            let second = progress(req, first.state, event, first.sessions);
            let third = progress(req, second.state, event, second.sessions);
            &&& first.sessions == sessions
            &&& second.sessions == sessions
            &&& third.sessions == sessions
            &&& !(first.action is Start) && !(first.action is StartGroup)
            &&& !(second.action is Start) && !(second.action is StartGroup)
        }),
{
}

/// The container that an exchange counts a connection for.
pub open spec fn counted(state: ExchangeView) -> Option<Seq<char>> {
    match state {
        ExchangeView::Sent { id } => Some(id),
        ExchangeView::Open { id } => Some(id),
        _ => None,
    }
}

/// The connections of a container without the one that an exchange counts.
pub open spec fn others(state: ExchangeView, sessions: SessionsView, id: Seq<char>) -> int {
    sessions.connections(id) - if counted(state) == Some(id) {
        1int
    } else {
        0int
    }
}

/// At every step an exchange counts for at most one connection, and takes back what it counted: the
/// connections of a container, less the one that the exchange counts, stay what they were.
pub proof fn lemma_connections_balance(
    req: RequestView,
    state: ExchangeView,
    event: ExchangeEventView,
    sessions: SessionsView,
    id: Seq<char>,
)
    requires
        new_connection(state, event) matches Some(x) ==> sessions.connections(x) < usize::MAX,
        counted(state) matches Some(x) ==> sessions.connections(x) > 0,
    ensures
        ({
            let next = progress(req, state, event, sessions);
            &&& others(next.state, next.sessions, id) == others(state, sessions, id)
            &&& counted(next.state) matches Some(x) ==> next.sessions.connections(x) > 0
        }),
{
    let next = progress(req, state, event, sessions);
    match new_connection(state, event) {
        Some(x) => {
            crate::sessions::lemma_connect_counts(sessions, x, id);
        },
        None => {},
    }
    match counted(state) {
        Some(x) => {
            crate::sessions::lemma_disconnect_counts(sessions, x, id);
        },
        None => {},
    }
}

/// An exchange that is over counts for nothing: once it is done, the sessions are left alone
/// whatever else happens.
pub proof fn lemma_done_is_done(
    req: RequestView,
    event: ExchangeEventView,
    sessions: SessionsView,
)
    ensures
        progress(req, ExchangeView::Done, event, sessions) == finish(sessions),
{
}

/// While an answer or a WebSocket is relayed, its container is not expired.
pub proof fn lemma_open_never_expires(
    state: ExchangeView,
    sessions: SessionsView,
    now: Duration,
    id: Seq<char>,
)
    requires
        sessions.wf(),
        counted(state) == Some(id),
        sessions.connections(id) > 0,
    ensures
        !sessions.expired(now).contains(id),
{
    crate::sessions::lemma_active_never_expires(sessions, now, id);
}

} // verus!
