//! What holds of requests and connections from their arrival to their end.

use crate::container::{ContainerView, TcpExpose};
use crate::http;
use crate::http::RequestView;
use crate::number;
use crate::proxy;
use crate::proxy::{Course, ExchangeActionView, ExchangeEventView, ExchangeView};
use crate::route_laws;
use crate::router;
use crate::router::{ResultView, RouterView};
use crate::router_laws;
use crate::sessions;
use crate::sessions::{SessionState, SessionsView};
use crate::statics::StaticTargetView;
use crate::tcp;
use crate::tcp::{TunnelActionView, TunnelCourse, TunnelEventView, TunnelView};
use crate::text;
use crate::time::Duration;
use vstd::prelude::*;

verus! {

// ---------------------------------------------------------------------------------------------
// Requests
// ---------------------------------------------------------------------------------------------

/// The proxy answers with this status and this text, the exchange is over, and the sessions are as
/// given.
pub open spec fn is_answer(
    course: Course,
    status: u16,
    body: Seq<char>,
    sessions: SessionsView,
) -> bool {
    &&& course.state == ExchangeView::Done
    &&& course.action == ExchangeActionView::Reply(status, body)
    &&& course.sessions == sessions
}

/// The health check is answered with 200, and a request without a route with 404; neither touches a
/// session.
pub proof fn lemma_answered_at_once(
    req: RequestView,
    router: RouterView,
    sessions: SessionsView,
    now: Duration,
)
    ensures
        req.path == "/healthz"@ ==> is_answer(
            proxy::arrival(req, router, sessions, now),
            200,
            "ok\n"@,
            sessions,
        ),
        req.path != "/healthz"@ && router.resolution(http::host_of(req)) is None ==> is_answer(
            proxy::arrival(req, router, sessions, now),
            404,
            "no route for host"@,
            sessions,
        ),
{
}

/// The container that an exchange is to start, and the port that it is to be used on.
pub open spec fn to_start(state: ExchangeView) -> Option<(ContainerView, u16)> {
    match state {
        ExchangeView::GroupStart { container, port, .. } => Some((container, port)),
        ExchangeView::Start { container, port, .. } => Some((container, port)),
        _ => None,
    }
}

/// Where the host of a request resolves to a container and a port, the start that the request causes
/// is of that container on that port: at once where the container has no group, and otherwise as
/// soon as its group is started.
pub proof fn lemma_started_on_port(
    req: RequestView,
    router: RouterView,
    sessions: SessionsView,
    now: Duration,
    c: ContainerView,
    port: u16,
    later: SessionsView,
)
    requires
        req.path != "/healthz"@,
        router.resolution(http::host_of(req)) == Some(ResultView::Dynamic(c, port)),
    ensures
        ({
            let course = proxy::arrival(req, router, sessions, now);
            &&& to_start(course.state) == Some((c, port))
            &&& c.group is None ==> course.state is Start && course.action
                == ExchangeActionView::Start(c, port)
            &&& c.group matches Some(group) ==> {
                let next = proxy::progress(
                    req,
                    course.state,
                    ExchangeEventView::GroupStarted(true),
                    later,
                );
                &&& course.state is GroupStart
                &&& course.action == ExchangeActionView::StartGroup(group)
                &&& next.state is Start
                &&& to_start(next.state) == Some((c, port))
                &&& next.action == ExchangeActionView::Start(c, port)
                &&& next.sessions == later
            }
        }),
{
}

/// A request for a host that some container answers for has a container that answers for it started
/// on the port that this container has for the host: that of its first route for the host, where
/// that names one, and otherwise the container's own.
pub proof fn lemma_started_on_named_port(
    containers: Seq<ContainerView>,
    req: RequestView,
    r: RouterView,
    sessions: SessionsView,
    now: Duration,
)
    requires
        r.routes == router::routes_of(containers),
        req.path != "/healthz"@,
        route_laws::is_answered(containers, http::host_of(req)),
    ensures
        to_start(proxy::arrival(req, r, sessions, now).state) matches Some((c, port))
            && containers.contains(c) && router_laws::answers_for(c, http::host_of(req))
            && route_laws::is_port_for(c, http::host_of(req), port) && (c.group is None
            ==> proxy::arrival(req, r, sessions, now).action == ExchangeActionView::Start(c, port)),
{
    route_laws::lemma_answered_port(containers, r, http::host_of(req));
}

/// Where the first route of the container that is started names a port for the host of the request,
/// that port is the one.
pub proof fn lemma_first_route_port(
    containers: Seq<ContainerView>,
    req: RequestView,
    r: RouterView,
    sessions: SessionsView,
    now: Duration,
    c: ContainerView,
    port: u16,
    i: int,
)
    requires
        r.routes == router::routes_of(containers),
        req.path != "/healthz"@,
        route_laws::is_answered(containers, http::host_of(req)),
        to_start(proxy::arrival(req, r, sessions, now).state) == Some((c, port)),
        0 <= i < c.routes.len(),
        c.routes[i].host == http::host_of(req),
        forall|j: int| 0 <= j < i ==> (#[trigger] c.routes[j]).host != http::host_of(req),
    ensures
        c.routes[i].port matches Some(p) ==> port == p,
        c.routes[i].port is None ==> port == (match c.port {
            Some(p) => p,
            None => 0,
        }),
{
    lemma_started_on_named_port(containers, req, r, sessions, now);
    assert(route_laws::first_route(c, http::host_of(req), i));
}

/// A request for a container is recorded as an access to that container at this time, for as long as
/// its sessions last; no other session changes, and no connection is counted yet.
pub proof fn lemma_access_recorded(
    req: RequestView,
    router: RouterView,
    sessions: SessionsView,
    now: Duration,
    c: ContainerView,
    port: u16,
    other: Seq<char>,
)
    requires
        req.path != "/healthz"@,
        router.resolution(http::host_of(req)) == Some(ResultView::Dynamic(c, port)),
    ensures
        ({
            let after = proxy::arrival(req, router, sessions, now).sessions;
            &&& after.session(c.id) == Some(
                SessionState { last_access: now, duration: c.session_duration },
            )
            &&& other != c.id ==> after.session(other) == sessions.session(other)
            &&& after.connections(other) == sessions.connections(other)
        }),
{
    sessions::lemma_touched(sessions, c.id, c.session_duration, now, other);
}

/// A WebSocket is asked for exactly where the request says so, at every step up to the start.
pub proof fn lemma_kind_kept(
    req: RequestView,
    router: RouterView,
    sessions: SessionsView,
    now: Duration,
    ok: bool,
    later: SessionsView,
)
    ensures
        ({
            let first = proxy::arrival(req, router, sessions, now);
            let second = proxy::progress(
                req,
                first.state,
                ExchangeEventView::GroupStarted(ok),
                later,
            );
            &&& first.state matches ExchangeView::GroupStart { ws, .. } ==> ws
                == http::asks_for_websocket(req)
            &&& first.state matches ExchangeView::Start { ws, .. } ==> ws
                == http::asks_for_websocket(req)
            &&& first.state is GroupStart ==> (second.state matches ExchangeView::Start { ws, .. }
                ==> ws == http::asks_for_websocket(req))
            &&& first.action is SendUpgrade ==> http::asks_for_websocket(req)
            &&& first.action is Send ==> !http::asks_for_websocket(req)
        }),
{
}

/// Where a group or a container could not be started, the client is told so with 504, and nothing is
/// counted.
pub proof fn lemma_failed_start_is_answered(
    req: RequestView,
    c: ContainerView,
    port: u16,
    ws: bool,
    sessions: SessionsView,
)
    ensures
        is_answer(
            proxy::progress(
                req,
                ExchangeView::GroupStart { container: c, port, ws },
                ExchangeEventView::GroupStarted(false),
                sessions,
            ),
            504,
            "container failed to start"@,
            sessions,
        ),
        is_answer(
            proxy::progress(
                req,
                ExchangeView::Start { container: c, port, ws },
                ExchangeEventView::Started(None),
                sessions,
            ),
            504,
            "container failed to start"@,
            sessions,
        ),
{
}

/// A request whose container was started at an address is sent there and counts as a connection to
/// that container. An answer is handed on; without one the client is told so with 502. In both cases
/// the connection does not count any more in the end, and no session changes.
pub proof fn lemma_request_is_relayed(
    req: RequestView,
    c: ContainerView,
    port: u16,
    addr: Seq<char>,
    status: u16,
    last: ExchangeEventView,
    sessions: SessionsView,
)
    requires
        sessions.wf(),
        sessions.connections(c.id) < usize::MAX,
    ensures
        ({
            let sent = proxy::progress(
                req,
                ExchangeView::Start { container: c, port, ws: false },
                ExchangeEventView::Started(Some(addr)),
                sessions,
            );
            let open = proxy::progress(
                req,
                sent.state,
                ExchangeEventView::Answered(Some(status)),
                sent.sessions,
            );
            let end = proxy::progress(req, open.state, last, open.sessions);
            let lost = proxy::progress(
                req,
                sent.state,
                ExchangeEventView::Answered(None),
                sent.sessions,
            );
            &&& sent.action == ExchangeActionView::Send(http::container_forward(req, addr))
            &&& sent.sessions.connections(c.id) == sessions.connections(c.id) + 1
            &&& open.action == ExchangeActionView::Relay
            &&& open.sessions == sent.sessions
            &&& end.action == ExchangeActionView::Finish
            &&& end.state == ExchangeView::Done
            &&& end.sessions == sessions
            &&& is_answer(lost, 502, "backend error"@, sessions)
        }),
{
    sessions::lemma_connect_counts(sessions, c.id, c.id);
    sessions::lemma_disconnect_undoes_connect(sessions, c.id);
}

/// A WebSocket request whose container was started at an address is sent there. Where the answer is
/// 101 the connection is taken over, and counts as a connection to that container while it is
/// relayed. Any other answer is handed on without its headers. Without an answer, or where the
/// connection cannot be taken over, the client is told so with 502. No session changes.
pub proof fn lemma_websocket_is_relayed(
    req: RequestView,
    c: ContainerView,
    port: u16,
    addr: Seq<char>,
    other_status: u16,
    last: ExchangeEventView,
    sessions: SessionsView,
)
    requires
        sessions.wf(),
        sessions.connections(c.id) < usize::MAX,
        other_status != 101,
    ensures
        ({
            let sent = proxy::progress(
                req,
                ExchangeView::Start { container: c, port, ws: true },
                ExchangeEventView::Started(Some(addr)),
                sessions,
            );
            let taken = proxy::progress(
                req,
                sent.state,
                ExchangeEventView::Answered(Some(101)),
                sent.sessions,
            );
            let refused = proxy::progress(
                req,
                sent.state,
                ExchangeEventView::Answered(Some(other_status)),
                sent.sessions,
            );
            let lost = proxy::progress(
                req,
                sent.state,
                ExchangeEventView::Answered(None),
                sent.sessions,
            );
            let open = proxy::progress(
                req,
                taken.state,
                ExchangeEventView::Upgraded(true),
                taken.sessions,
            );
            let failed = proxy::progress(
                req,
                taken.state,
                ExchangeEventView::Upgraded(false),
                taken.sessions,
            );
            let end = proxy::progress(req, open.state, last, open.sessions);
            &&& sent.action == ExchangeActionView::SendUpgrade(http::container_upgrade(req, addr))
            &&& sent.sessions == sessions
            &&& taken.action == ExchangeActionView::Upgrade
            &&& taken.sessions == sessions
            &&& refused.action == ExchangeActionView::RelayBare
            &&& refused.state == ExchangeView::Done
            &&& refused.sessions == sessions
            &&& is_answer(lost, 502, "backend error"@, sessions)
            &&& open.action == ExchangeActionView::Bridge
            &&& open.sessions.connections(c.id) == sessions.connections(c.id) + 1
            &&& is_answer(failed, 502, "upgrade failed"@, sessions)
            &&& end.action == ExchangeActionView::Finish
            &&& end.state == ExchangeView::Done
            &&& end.sessions == sessions
        }),
{
    sessions::lemma_connect_counts(sessions, c.id, c.id);
    sessions::lemma_disconnect_undoes_connect(sessions, c.id);
}

/// A request for a host with a static target is sent to the address and port of that target, and its
/// answer is handed on; a WebSocket is taken over where the answer is 101. Failures are told with
/// 502, and the sessions are left alone throughout.
pub proof fn lemma_static_is_relayed(
    req: RequestView,
    router: RouterView,
    sessions: SessionsView,
    now: Duration,
    t: StaticTargetView,
    status: u16,
)
    requires
        req.path != "/healthz"@,
        router.resolution(http::host_of(req)) == Some(ResultView::Static(t)),
    ensures
        ({
            let addr = t.ip + seq![':'] + number::decimal_of(t.port as nat);
            let sent = proxy::arrival(req, router, sessions, now);
            let answered = proxy::progress(
                req,
                sent.state,
                ExchangeEventView::Answered(Some(status)),
                sessions,
            );
            let lost = proxy::progress(
                req,
                sent.state,
                ExchangeEventView::Answered(None),
                sessions,
            );
            let open = proxy::progress(
                req,
                answered.state,
                ExchangeEventView::Upgraded(true),
                sessions,
            );
            let failed = proxy::progress(
                req,
                answered.state,
                ExchangeEventView::Upgraded(false),
                sessions,
            );
            &&& sent.sessions == sessions
            &&& answered.sessions == sessions
            &&& is_answer(lost, 502, "backend error"@, sessions)
            &&& !http::asks_for_websocket(req) ==> {
                &&& sent.action == ExchangeActionView::Send(http::static_forward(req, addr))
                &&& answered.action == ExchangeActionView::Relay
                &&& answered.state == ExchangeView::Done
            }
            &&& http::asks_for_websocket(req) ==> sent.action == ExchangeActionView::SendUpgrade(
                http::static_upgrade(req, addr),
            )
            &&& http::asks_for_websocket(req) && status != 101 ==> answered.action
                == ExchangeActionView::RelayBare && answered.state == ExchangeView::Done
            &&& http::asks_for_websocket(req) && status == 101 ==> {
                &&& answered.action == ExchangeActionView::Upgrade
                &&& open.action == ExchangeActionView::Bridge
                &&& open.state == ExchangeView::Done
                &&& open.sessions == sessions
                &&& is_answer(failed, 502, "upgrade failed"@, sessions)
            }
        }),
{
}

/// Where the client is gone before an answer came, the connection does not count any more.
pub proof fn lemma_client_gone(
    req: RequestView,
    id: Seq<char>,
    event: ExchangeEventView,
    sessions: SessionsView,
    other: Seq<char>,
)
    requires
        sessions.connections(id) > 0,
        !(event matches ExchangeEventView::Answered(Some(_))),
    ensures
        ({
            let end = proxy::progress(req, ExchangeView::Sent { id }, event, sessions);
            &&& end.state == ExchangeView::Done
            &&& end.sessions.connections(id) == sessions.connections(id) - 1
            &&& other != id ==> end.sessions.connections(other) == sessions.connections(other)
            &&& end.sessions.session(other) == sessions.session(other)
        }),
{
    sessions::lemma_disconnect_counts(sessions, id, other);
    sessions::lemma_connections_keep_sessions(sessions, id, other);
}

/// Without an answer from a container, whatever happened instead, the client is told so with 502.
pub proof fn lemma_no_answer(
    req: RequestView,
    id: Seq<char>,
    event: ExchangeEventView,
    sessions: SessionsView,
)
    requires
        !(event matches ExchangeEventView::Answered(Some(_))),
    ensures
        proxy::progress(req, ExchangeView::Sent { id }, event, sessions).action
            == ExchangeActionView::Reply(502, "backend error"@),
{
}

/// The event is one that the exchange waits for.
pub open spec fn is_awaited(state: ExchangeView, event: ExchangeEventView) -> bool {
    match state {
        ExchangeView::GroupStart { .. } => event is GroupStarted,
        ExchangeView::Start { .. } => event is Started,
        ExchangeView::SentStatic => event is Answered,
        ExchangeView::UpgradeSent { .. } => event is Answered,
        ExchangeView::UpgradeSentStatic => event is Answered,
        ExchangeView::Upgrading { .. } => event is Upgraded,
        ExchangeView::UpgradingStatic => event is Upgraded,
        _ => false,
    }
}

/// Whatever else happens to an exchange that counts for no connection ends it, such as a client that
/// is gone; no session changes.
pub proof fn lemma_anything_else_ends(
    req: RequestView,
    state: ExchangeView,
    event: ExchangeEventView,
    sessions: SessionsView,
)
    requires
        !(state is Sent) && !(state is Open),
        !is_awaited(state, event),
    ensures
        ({
            let end = proxy::progress(req, state, event, sessions);
            &&& end.state == ExchangeView::Done
            &&& end.action == ExchangeActionView::Finish
            &&& end.sessions == sessions
        }),
{
}

/// A step counts a new connection exactly where the connections of some container grow.
pub proof fn lemma_new_connection(
    req: RequestView,
    state: ExchangeView,
    event: ExchangeEventView,
    sessions: SessionsView,
    id: Seq<char>,
)
    requires
        sessions.connections(id) < usize::MAX,
    ensures
        proxy::new_connection(state, event) == Some(id) <==> proxy::progress(
            req,
            state,
            event,
            sessions,
        ).sessions.connections(id) > sessions.connections(id),
{
    match proxy::new_connection(state, event) {
        Some(x) => {
            if x == id {
                sessions::lemma_connect_counts(sessions, x, id);
            } else {
                lemma_other_count(sessions, x, id);
            }
        },
        None => {},
    }
    match proxy::counted(state) {
        Some(x) => {
            sessions::lemma_disconnect_counts(sessions, x, id);
        },
        None => {},
    }
}

proof fn lemma_other_count(s: SessionsView, id: Seq<char>, other: Seq<char>)
    requires
        other != id,
    ensures
        s.connected(id).connections(other) == s.connections(other),
{
    crate::string_map::lemma_inserted(s.active, id, (s.connections(id) + 1) as usize, other);
}

// ---------------------------------------------------------------------------------------------
// Connections
// ---------------------------------------------------------------------------------------------

/// The first entry of `exposes` for a listening port is the one at `i`.
pub open spec fn first_entry(exposes: Seq<TcpExpose>, listen_port: u16, i: int) -> bool {
    &&& 0 <= i < exposes.len()
    &&& exposes[i].listen_port == listen_port
    &&& forall|j: int| 0 <= j < i ==> (#[trigger] exposes[j]).listen_port != listen_port
}

/// The port of the container is that of its first entry for the listening port.
pub proof fn lemma_container_port(exposes: Seq<TcpExpose>, listen_port: u16, i: int)
    ensures
        first_entry(exposes, listen_port, i) ==> tcp::container_port(exposes, listen_port) == Some(
            exposes[i].container_port,
        ),
        (forall|j: int| 0 <= j < exposes.len() ==> (#[trigger] exposes[j]).listen_port
            != listen_port) ==> tcp::container_port(exposes, listen_port) is None,
    decreases exposes.len(),
{
    if exposes.len() > 0 {
        let rest = exposes.skip(1);
        lemma_container_port(rest, listen_port, i - 1);
        if exposes[0].listen_port != listen_port {
            assert forall|j: int| 0 <= j < rest.len() implies #[trigger] rest[j] == exposes[j + 1] by {}
            if first_entry(exposes, listen_port, i) {
                assert(rest[i - 1] == exposes[i]);
                assert forall|j: int| 0 <= j < i - 1 implies (#[trigger] rest[j]).listen_port
                    != listen_port by {
                    assert(exposes[j + 1].listen_port != listen_port);
                }
            }
            if forall|j: int|
                0 <= j < exposes.len() ==> (#[trigger] exposes[j]).listen_port != listen_port {
                assert forall|j: int| 0 <= j < rest.len() implies (#[trigger] rest[j]).listen_port
                    != listen_port by {
                    assert(exposes[j + 1].listen_port != listen_port);
                }
            }
        }
    }
}

/// The address to connect to has the host of the address that the container is ready at, whatever
/// port that has, and the given port.
pub proof fn lemma_target_host(host: Seq<char>, ready: Seq<char>, port: u16)
    requires
        !ready.contains(':'),
    ensures
        tcp::tunnel_target(host + seq![':'] + ready, port) == host + seq![':']
            + number::decimal_of(port as nat),
        !host.contains(':') ==> tcp::tunnel_target(host, port) == host + seq![':']
            + number::decimal_of(port as nat),
{
    text::lemma_cut_last(host, ready, ':');
    crate::text_laws::lemma_cut_last_parts(host, ':');
}

/// The host of an address with a port is what stands before its last `:`; one without has none.
pub proof fn lemma_host_part(host: Seq<char>, port: Seq<char>)
    requires
        !port.contains(':'),
    ensures
        tcp::host_part(host + seq![':'] + port) == Some(host),
        tcp::host_part(port) is None,
{
    text::lemma_cut_last(host, port, ':');
    crate::text_laws::lemma_cut_last_parts(port, ':');
}

/// From arrival to connection: where a connection to a listening port has a container started, and
/// that is ready at an address with some host, the address that is then connected to is that host
/// with the port of the container's first entry for the listening port. The start is of the same
/// container on the same port, in the action and in the state.
pub proof fn lemma_connected_on_port(
    listen_port: u16,
    router: RouterView,
    sessions: SessionsView,
    now: Duration,
    c: ContainerView,
    i: int,
    host: Seq<char>,
    ready: Seq<char>,
    later: SessionsView,
)
    requires
        router::chosen_container(router::behind(router.tcp, listen_port)) == Some(c),
        first_entry(c.tcp_expose, listen_port, i),
        !ready.contains(':'),
    ensures
        ({
            let port = c.tcp_expose[i].container_port;
            let first = tcp::tunnel_arrival(listen_port, router, sessions, now);
            let second = tcp::tunnel_progress(
                first.state,
                TunnelEventView::Started(Some(host + seq![':'] + ready)),
                later,
            );
            &&& first.action == TunnelActionView::Start(c, port)
            &&& first.state == TunnelView::Start { container: c, port }
            &&& second.action == TunnelActionView::Connect(
                host + seq![':'] + number::decimal_of(port as nat),
            )
            &&& second.state == TunnelView::Connecting { id: c.id }
        }),
{
    lemma_container_port(c.tcp_expose, listen_port, i);
    lemma_target_host(host, ready, c.tcp_expose[i].container_port);
}

/// A connection to a port that some container is forwarded to from has such a container started, on
/// the port of its first entry for that port, and is then connected to that port.
pub proof fn lemma_listened_port_is_connected(
    containers: Seq<ContainerView>,
    r: RouterView,
    listen_port: u16,
    sessions: SessionsView,
    now: Duration,
    k: int,
    host: Seq<char>,
    ready: Seq<char>,
    later: SessionsView,
)
    requires
        r.tcp == router::tcp_routes_of(containers),
        0 <= k < containers.len(),
        router_laws::exposes(containers[k], listen_port),
        !ready.contains(':'),
    ensures
        ({
            let first = tcp::tunnel_arrival(listen_port, r, sessions, now);
            let second = tcp::tunnel_progress(
                first.state,
                TunnelEventView::Started(Some(host + seq![':'] + ready)),
                later,
            );
            &&& first.state matches TunnelView::Start { container, port } && containers.contains(
                container,
            ) && first.action == TunnelActionView::Start(container, port) && exists|i: int| #[trigger]
                first_entry(container.tcp_expose, listen_port, i)
                    && container.tcp_expose[i].container_port == port && second.action
                    == TunnelActionView::Connect(
                    host + seq![':'] + number::decimal_of(
                        container.tcp_expose[i].container_port as nat,
                    ),
                )
        }),
{
    tcp::lemma_listened_port_is_served(containers, r, listen_port, sessions, now, k);
    let first = tcp::tunnel_arrival(listen_port, r, sessions, now);
    let c = router::chosen_container(router::behind(r.tcp, listen_port))->0;
    assert(exists|j: int|
        0 <= j < c.tcp_expose.len() && (#[trigger] c.tcp_expose[j]).listen_port == listen_port) by {
        if forall|j: int|
            0 <= j < c.tcp_expose.len() ==> (#[trigger] c.tcp_expose[j]).listen_port
                != listen_port {
            lemma_container_port(c.tcp_expose, listen_port, 0);
        }
    }
    let i = lemma_first_entry(c.tcp_expose, listen_port, c.tcp_expose.len());
    lemma_connected_on_port(listen_port, r, sessions, now, c, i, host, ready, later);
}

proof fn lemma_first_entry(exposes: Seq<TcpExpose>, listen_port: u16, n: nat) -> (i: int)
    requires
        n <= exposes.len(),
        exists|j: int| 0 <= j < n && (#[trigger] exposes[j]).listen_port == listen_port,
    ensures
        first_entry(exposes, listen_port, i),
    decreases n,
{
    if exists|j: int| 0 <= j < n - 1 && (#[trigger] exposes[j]).listen_port == listen_port {
        lemma_first_entry(exposes, listen_port, (n - 1) as nat)
    } else {
        n - 1
    }
}

/// Among the containers that a port is forwarded to, the last one that none is better than is the one
/// that a connection starts, where no id is there twice.
pub proof fn lemma_last_best_is_connected(
    containers: Seq<ContainerView>,
    r: RouterView,
    listen_port: u16,
    sessions: SessionsView,
    now: Duration,
    k: int,
)
    requires
        r.tcp == router::tcp_routes_of(containers),
        router_laws::distinct_ids(containers),
        0 <= k < containers.len(),
        router_laws::exposes(containers[k], listen_port),
        forall|i: int|
            0 <= i < containers.len() && router_laws::exposes(#[trigger] containers[i], listen_port)
                ==> !route_laws::is_better(containers[i], containers[k]) && (k < i
                ==> route_laws::is_better(containers[k], containers[i])),
    ensures
        tcp::tunnel_arrival(listen_port, r, sessions, now).action matches TunnelActionView::Start(
            c,
            _,
        ) && c == containers[k],
        router::chosen_container(router::behind(r.tcp, listen_port)) == Some(containers[k]),
{
    router_laws::lemma_tcp_routes(containers, listen_port);
    let v = router_laws::forwarded(containers, listen_port);
    let places = lemma_forwarded_in_order(containers, listen_port);
    let m = lemma_is_forwarded(containers, listen_port, k);
    assert(containers[places[m]] == v[m]);
    assert(places[m] == k);
    assert forall|i: int| 0 <= i < v.len() implies !route_laws::is_better(#[trigger] v[i], v[m]) by {
        assert(containers[places[i]] == v[i]);
    }
    assert forall|i: int| m < i < v.len() implies route_laws::is_better(v[m], #[trigger] v[i]) by {
        assert(containers[places[i]] == v[i]);
        assert(places[m] < places[i]);
    }
    route_laws::lemma_last_of_best_container(v, m);
    tcp::lemma_forwarded_has_port(containers[k], listen_port);
}

proof fn lemma_is_forwarded(containers: Seq<ContainerView>, port: u16, k: int) -> (m: int)
    requires
        0 <= k < containers.len(),
        router_laws::exposes(containers[k], port),
    ensures
        0 <= m < router_laws::forwarded(containers, port).len(),
        router_laws::forwarded(containers, port)[m].id == containers[k].id,
    decreases containers.len(),
{
    let init = containers.drop_last();
    let before = router_laws::forwarded(init, port);
    let after = router_laws::forwarded(containers, port);
    if k < init.len() {
        assert(init[k] == containers[k]);
        let m = lemma_is_forwarded(init, port, k);
        assert(after[m] == before[m]);
        m
    } else if router::has_id(before, containers[k].id) {
        let m = choose|m: int| 0 <= m < before.len() && (#[trigger] before[m]).id == containers[k].id;
        assert(after[m] == before[m]);
        m
    } else {
        before.len() as int
    }
}

/// Among containers with one id that a port is forwarded to, the first one stands behind the port;
/// and no id stands there twice.
pub proof fn lemma_first_behind_port(containers: Seq<ContainerView>, port: u16, i: int, k: int, m: int)
    requires
        0 <= i < containers.len(),
        router_laws::exposes(containers[i], port),
        forall|j: int|
            0 <= j < i && (#[trigger] containers[j]).id == containers[i].id
                ==> !router_laws::exposes(containers[j], port),
    ensures
        router::behind(router::tcp_routes_of(containers), port).contains(containers[i]),
        0 <= k < m < router::behind(router::tcp_routes_of(containers), port).len()
            ==> router::behind(router::tcp_routes_of(containers), port)[k].id != router::behind(
            router::tcp_routes_of(containers),
            port,
        )[m].id,
{
    router_laws::lemma_tcp_routes(containers, port);
    lemma_forwarded_once(containers, port);
    lemma_forwarded_first(containers, port, i);
}

proof fn lemma_forwarded_once(containers: Seq<ContainerView>, port: u16)
    ensures
        router_laws::distinct_ids(router_laws::forwarded(containers, port)),
    decreases containers.len(),
{
    if containers.len() > 0 {
        lemma_forwarded_once(containers.drop_last(), port);
        let before = router_laws::forwarded(containers.drop_last(), port);
        let after = router_laws::forwarded(containers, port);
        assert forall|k: int, m: int| 0 <= k < m < after.len() implies (#[trigger] after[k]).id != (
        #[trigger] after[m]).id by {
            if m < before.len() {
                assert(before[k].id != before[m].id);
            } else {
                assert(before[k].id != containers.last().id);
            }
        }
    }
}

proof fn lemma_forwarded_first(containers: Seq<ContainerView>, port: u16, i: int)
    requires
        0 <= i < containers.len(),
        router_laws::exposes(containers[i], port),
        forall|j: int|
            0 <= j < i && (#[trigger] containers[j]).id == containers[i].id
                ==> !router_laws::exposes(containers[j], port),
    ensures
        router_laws::forwarded(containers, port).contains(containers[i]),
    decreases containers.len(),
{
    let init = containers.drop_last();
    let before = router_laws::forwarded(init, port);
    let after = router_laws::forwarded(containers, port);
    if i < init.len() {
        assert(init[i] == containers[i]);
        assert forall|j: int|
            0 <= j < i && (#[trigger] init[j]).id == init[i].id implies !router_laws::exposes(
            init[j],
            port,
        ) by {
            assert(containers[j].id == containers[i].id);
        }
        lemma_forwarded_first(init, port, i);
        assert(after[before.index_of(containers[i])] == containers[i]);
    } else {
        let places = lemma_forwarded_in_order(init, port);
        assert(!router::has_id(before, containers[i].id)) by {
            if router::has_id(before, containers[i].id) {
                let k = choose|k: int|
                    0 <= k < before.len() && (#[trigger] before[k]).id == containers[i].id;
                assert(init[places[k]] == before[k]);
                assert(containers[places[k]].id == containers[i].id);
            }
        }
        assert(after[before.len() as int] == containers[i]);
    }
}

/// The containers behind a port stand in the order of the list.
proof fn lemma_forwarded_in_order(containers: Seq<ContainerView>, port: u16) -> (places: Seq<int>)
    ensures
        places.len() == router_laws::forwarded(containers, port).len(),
        forall|k: int|
            0 <= k < places.len() ==> 0 <= (#[trigger] places[k]) < containers.len()
                && containers[places[k]] == router_laws::forwarded(containers, port)[k]
                && router_laws::exposes(containers[places[k]], port),
        forall|k: int, m: int|
            0 <= k < m < places.len() ==> (#[trigger] places[k]) < (#[trigger] places[m]),
    decreases containers.len(),
{
    if containers.len() == 0 {
        Seq::empty()
    } else {
        let init = containers.drop_last();
        let before = lemma_forwarded_in_order(init, port);
        let v = router_laws::forwarded(init, port);
        let w = router_laws::forwarded(containers, port);
        let places = if w.len() > v.len() {
            before.push(containers.len() - 1)
        } else {
            before
        };
        assert forall|k: int| 0 <= k < places.len() implies 0 <= (#[trigger] places[k])
            < containers.len() && containers[places[k]] == w[k] && router_laws::exposes(
            containers[places[k]],
            port,
        ) by {
            if k < before.len() {
                assert(places[k] == before[k]);
                assert(init[before[k]] == v[k]);
                assert(w[k] == v[k]);
            }
        }
        places
    }
}

/// The connection is closed, and the sessions are as given.
pub open spec fn is_closed(course: TunnelCourse, sessions: SessionsView) -> bool {
    &&& course.state == TunnelView::Done
    &&& course.action == TunnelActionView::Close
    &&& course.sessions == sessions
}

/// A connection to a port that no container is forwarded to from is closed, and touches no session.
pub proof fn lemma_unknown_port_is_closed(
    containers: Seq<ContainerView>,
    r: RouterView,
    listen_port: u16,
    sessions: SessionsView,
    now: Duration,
)
    requires
        r.tcp == router::tcp_routes_of(containers),
        forall|i: int|
            0 <= i < containers.len() ==> !router_laws::exposes(
                #[trigger] containers[i],
                listen_port,
            ),
    ensures
        is_closed(tcp::tunnel_arrival(listen_port, r, sessions, now), sessions),
{
    router_laws::lemma_tcp_routes(containers, listen_port);
    router_laws::lemma_chosen_container(router::behind(r.tcp, listen_port));
}

/// A connection to a port that no container is chosen for, or whose container has no entry for the
/// port, is closed, and touches no session.
pub proof fn lemma_without_entry_is_closed(
    listen_port: u16,
    router: RouterView,
    sessions: SessionsView,
    now: Duration,
)
    requires
        router::chosen_container(router::behind(router.tcp, listen_port)) matches Some(c)
            ==> !router_laws::exposes(c, listen_port),
    ensures
        is_closed(tcp::tunnel_arrival(listen_port, router, sessions, now), sessions),
{
    match router::chosen_container(router::behind(router.tcp, listen_port)) {
        Some(c) => {
            lemma_container_port(c.tcp_expose, listen_port, 0);
        },
        None => {},
    }
}

/// A connection is recorded as an access to its container at this time; no other session changes,
/// and no connection is counted yet.
pub proof fn lemma_connection_recorded(
    listen_port: u16,
    router: RouterView,
    sessions: SessionsView,
    now: Duration,
    c: ContainerView,
    port: u16,
    other: Seq<char>,
)
    requires
        tcp::tunnel_arrival(listen_port, router, sessions, now).action == TunnelActionView::Start(
            c,
            port,
        ),
    ensures
        ({
            let after = tcp::tunnel_arrival(listen_port, router, sessions, now).sessions;
            &&& after.session(c.id) == Some(
                SessionState { last_access: now, duration: c.session_duration },
            )
            &&& other != c.id ==> after.session(other) == sessions.session(other)
            &&& after.connections(other) == sessions.connections(other)
        }),
{
    sessions::lemma_touched(sessions, c.id, c.session_duration, now, other);
}

/// A connection whose container was started counts as a connection to it while it is made and
/// relayed, and not any more once it is closed: by either side, or because it could not be made.
/// Where the container could not be started nothing was counted. No session changes.
pub proof fn lemma_tunnel_is_relayed(
    c: ContainerView,
    port: u16,
    addr: Seq<char>,
    last: TunnelEventView,
    sessions: SessionsView,
)
    requires
        sessions.wf(),
        sessions.connections(c.id) < usize::MAX,
    ensures
        ({
            let start = TunnelView::Start { container: c, port };
            let made = tcp::tunnel_progress(
                start,
                TunnelEventView::Started(Some(addr)),
                sessions,
            );
            let open = tcp::tunnel_progress(
                made.state,
                TunnelEventView::Connected(true),
                made.sessions,
            );
            &&& made.action is Connect
            &&& made.sessions.connections(c.id) == sessions.connections(c.id) + 1
            &&& open.action == TunnelActionView::Relay
            &&& open.sessions == made.sessions
            &&& is_closed(tcp::tunnel_progress(open.state, last, open.sessions), sessions)
            &&& last != TunnelEventView::Connected(true) ==> is_closed(
                tcp::tunnel_progress(made.state, last, made.sessions),
                sessions,
            )
            &&& is_closed(
                tcp::tunnel_progress(start, TunnelEventView::Started(None), sessions),
                sessions,
            )
            &&& is_closed(tcp::tunnel_progress(TunnelView::Done, last, sessions), sessions)
        }),
{
    sessions::lemma_connect_counts(sessions, c.id, c.id);
    sessions::lemma_disconnect_undoes_connect(sessions, c.id);
}

/// Whatever happens to a connection but that its container was started closes it while it waits for
/// that, and nothing is counted.
pub proof fn lemma_tunnel_waits_for_start(
    c: ContainerView,
    port: u16,
    event: TunnelEventView,
    sessions: SessionsView,
)
    requires
        !(event matches TunnelEventView::Started(Some(_))),
    ensures
        is_closed(
            tcp::tunnel_progress(TunnelView::Start { container: c, port }, event, sessions),
            sessions,
        ),
{
}

/// A step counts a new connection exactly where the connections of some container grow.
pub proof fn lemma_new_tunnel(
    state: TunnelView,
    event: TunnelEventView,
    sessions: SessionsView,
    id: Seq<char>,
)
    requires
        sessions.connections(id) < usize::MAX,
    ensures
        tcp::new_tunnel(state, event) == Some(id) <==> tcp::tunnel_progress(
            state,
            event,
            sessions,
        ).sessions.connections(id) > sessions.connections(id),
{
    match tcp::new_tunnel(state, event) {
        Some(x) => {
            if x == id {
                sessions::lemma_connect_counts(sessions, x, id);
            } else {
                lemma_other_count(sessions, x, id);
            }
        },
        None => {},
    }
    match tcp::counted(state) {
        Some(x) => {
            sessions::lemma_disconnect_counts(sessions, x, id);
        },
        None => {},
    }
}

/// The ports to listen on from now on are those that should be and are not yet; the ports to listen
/// on no more are those that are and should not be.
pub proof fn lemma_listener_changes_exact(bound: Seq<u16>, desired: Seq<u16>, port: u16)
    ensures
        desired.filter(tcp::not_in(bound)).contains(port) <==> desired.contains(port)
            && !bound.contains(port),
{
    let p = tcp::not_in(bound);
    if desired.filter(p).contains(port) {
        desired.lemma_filter_contains_rev(p, port);
        desired.lemma_filter_pred(p, desired.filter(p).index_of(port));
    }
    if desired.contains(port) && !bound.contains(port) {
        desired.lemma_filter_contains(p, desired.index_of(port));
    }
}

} // verus!
