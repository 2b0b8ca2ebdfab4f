#![allow(non_snake_case)]

use dormant::config::StaticRouteEntry;
use dormant::container::{ManagedContainer, Route, TcpExpose};
use dormant::http::{
    equal_ignoring_case, forward_to_container, forward_to_static, is_grpc, is_websocket,
    resolve_host, trim_leading_slash, upgrade_headers, upgrade_to_container, upgrade_to_static,
    Forward, Header, RequestHead,
};
use dormant::proxy::{handle, handle_step, Exchange, ExchangeAction, ExchangeEvent};
use dormant::router::Router;
use dormant::sessions::Sessions;
use dormant::startup::{
    ensure_group_started, ensure_started_single, ensure_started_step, ensure_started_with_port,
    StartAction, StartError, StartEvent,
};
use dormant::tcp::{
    handle_conn, handle_conn_step, listen_host, listener_changes, Tunnel, TunnelAction, TunnelEvent,
};
use dormant::starts::{start_levels_step, LevelAction, LevelError, LevelEvent, LevelState};
use dormant::time::Duration;

/// A container as a Docker daemon would keep it.
#[derive(Clone)]
struct MockContainer {
    id: String,
    ip: String,
    port: u16,
    running: bool,
    start_fails: bool,
    status: Option<u16>,
}

impl MockContainer {
    fn new(id: &str, ip: &str, port: u16) -> Self {
        MockContainer {
            id: id.to_string(),
            ip: ip.to_string(),
            port,
            running: false,
            start_fails: false,
            status: Some(200),
        }
    }
}

/// A Docker daemon with a clock of its own.
struct Mock {
    containers: Vec<MockContainer>,
    started: Vec<String>,
    urls: Vec<String>,
    now: u64,
}

impl Mock {
    fn new(containers: Vec<MockContainer>) -> Self {
        Mock { containers, started: Vec::new(), urls: Vec::new(), now: 1_000 }
    }

    fn get(&mut self, id: &str) -> Option<&mut MockContainer> {
        self.containers.iter_mut().find(|c| c.id == id)
    }

    fn is_running(&self, id: &str) -> bool {
        self.containers.iter().any(|c| c.id == id && c.running)
    }

    fn start_order(&self) -> Vec<&str> {
        self.started.iter().map(|s| s.as_str()).collect()
    }

    fn clock(&self) -> Duration {
        Duration::from_millis(self.now)
    }

    /// Starts one container and waits for it as the library says.
    fn ensure_single(
        &mut self,
        c: &ManagedContainer,
        port: Option<u16>,
    ) -> Result<String, StartError> {
        let (mut state, mut action) = ensure_started_single();
        loop {
            let event = match action {
                StartAction::CheckRunning => match self.get(&c.id) {
                    Some(m) => StartEvent::Running(m.running),
                    None => StartEvent::DockerFailed,
                },
                StartAction::ResolveAddress => {
                    StartEvent::Address(self.get(&c.id).map(|m| m.ip.clone()))
                }
                StartAction::Start => match self.get(&c.id) {
                    Some(m) if !m.start_fails => {
                        m.running = true;
                        self.started.push(c.id.clone());
                        StartEvent::Started(self.clock())
                    }
                    _ => StartEvent::DockerFailed,
                },
                StartAction::ProbePort(addr) => StartEvent::PortOpen(
                    self.containers
                        .iter()
                        .any(|m| m.running && format!("{}:{}", m.ip, m.port) == addr),
                ),
                StartAction::CheckHealth(url) => {
                    self.urls.push(url);
                    StartEvent::Status(self.get(&c.id).and_then(|m| m.status))
                }
                StartAction::Pause(d) => {
                    assert_eq!(d, Duration::from_millis(500));
                    self.now += 500;
                    StartEvent::Paused(self.clock())
                }
                StartAction::Ready(addr) => return Ok(addr),
                StartAction::Fail(e) => return Err(e),
            };
            let next = ensure_started_step(c, port, state, event);
            state = next.0;
            action = next.1;
        }
    }

    /// Starts levels as the library says; all members of a level are tried.
    fn run_levels(
        &mut self,
        start: (LevelState, LevelAction),
    ) -> Result<Option<String>, LevelError> {
        let (mut state, mut action) = start;
        loop {
            let event = match action {
                LevelAction::StartLevel(level) => {
                    let mut up = Vec::new();
                    for (c, _) in &level {
                        up.push(self.ensure_single(c, c.port).is_ok());
                    }
                    LevelEvent::Members(up)
                }
                LevelAction::StartTarget(c, port) => {
                    LevelEvent::Started(self.ensure_single(&c, port).ok())
                }
                LevelAction::Ready(addr) => return Ok(addr),
                LevelAction::Fail(e) => return Err(e),
            };
            let next = start_levels_step(state, event);
            state = next.0;
            action = next.1;
        }
    }

    fn ensure_started(
        &mut self,
        c: &ManagedContainer,
        containers: &[ManagedContainer],
        port: Option<u16>,
    ) -> Result<String, LevelError> {
        self.run_levels(ensure_started_with_port(c, containers, port))
            .map(|addr| addr.expect("a started container has an address"))
    }

    fn ensure_group(&mut self, router: &Router, group: &str) -> Result<(), String> {
        let start = match ensure_group_started(router, group) {
            Some(start) => start,
            None => return Err(format!("group {} not found", group)),
        };
        match self.run_levels((start.state, start.action)) {
            Ok(_) => Ok(()),
            Err(e) => Err(format!("{:?}", e)),
        }
    }
}

fn make_container(id: &str, group: Option<&str>) -> ManagedContainer {
    ManagedContainer {
        id: id.to_string(),
        name: format!("/{}-1", id),
        port: Some(8000),
        tcp_expose: Vec::new(),
        group: group.map(|s| s.to_string()),
        session_duration: Duration::from_secs(3600),
        startup_timeout: Duration::from_secs(5),
        healthcheck_path: None,
        healthcheck_port: None,
        healthcheck_status: None,
        routes: Vec::new(),
        aliases: Vec::new(),
        ip: None,
        running: false,
        created: None,
        depends_on: Vec::new(),
        compose_project: None,
        compose_service: None,
        always_on: false,
    }
}

fn header(name: &str, value: &str) -> Header {
    Header { name: name.to_string(), value: value.as_bytes().to_vec() }
}

fn request(path: &str, headers: Vec<Header>) -> RequestHead {
    RequestHead {
        method: "POST".to_string(),
        path: path.split('?').next().unwrap().to_string(),
        path_and_query: Some(path.to_string()),
        authority: None,
        headers,
    }
}

fn pairs(headers: &[Header]) -> Vec<(&str, &str)> {
    headers
        .iter()
        .map(|h| (h.name.as_str(), std::str::from_utf8(&h.value).unwrap()))
        .collect()
}

fn sre(pattern: &str, ip: &str, port: u16) -> StaticRouteEntry {
    StaticRouteEntry { pattern: pattern.to_string(), ip: ip.to_string(), port }
}

const IP: &str = "10.0.0.2";

/// A proxy in front of a mock daemon. What answers is any running container and any address in
/// `open`.
struct Proxy {
    mock: Mock,
    router: Router,
    sessions: Sessions,
    open: Vec<String>,
    upgrades: bool,
    sent: Vec<Forward>,
}

impl Proxy {
    fn new(mocks: Vec<MockContainer>, managed: Vec<ManagedContainer>) -> Self {
        let mut router = Router::new();
        router.update(managed);
        Proxy {
            mock: Mock::new(mocks),
            router,
            sessions: Sessions::new(),
            open: Vec::new(),
            upgrades: false,
            sent: Vec::new(),
        }
    }

    fn answers(&mut self, f: Forward) -> ExchangeEvent {
        let rest = f.url.strip_prefix("http://").unwrap();
        let addr = rest.split('/').next().unwrap().to_string();
        self.sent.push(f);
        let up = self.open.contains(&addr)
            || self
                .mock
                .containers
                .iter()
                .any(|m| m.running && format!("{}:{}", m.ip, m.port) == addr);
        if !up {
            ExchangeEvent::Answered(None)
        } else if self.upgrades {
            ExchangeEvent::Answered(Some(101))
        } else {
            ExchangeEvent::Answered(Some(200))
        }
    }

    /// Runs an exchange up to the answer to the client: its status and the state after it.
    fn run(&mut self, req: &RequestHead) -> (u16, Exchange) {
        let now = self.mock.clock();
        let (mut state, mut action) = handle(req, &self.router, &mut self.sessions, now);
        loop {
            let event = match action {
                ExchangeAction::Reply(r) => return (r.status, state),
                ExchangeAction::Relay | ExchangeAction::RelayBare => return (200, state),
                ExchangeAction::Bridge => return (101, state),
                ExchangeAction::Finish => return (0, state),
                ExchangeAction::StartGroup(group) => {
                    ExchangeEvent::GroupStarted(self.mock.ensure_group(&self.router, &group).is_ok())
                }
                ExchangeAction::Start(c, port) => {
                    let all = self.router.containers();
                    ExchangeEvent::Started(self.mock.ensure_started(&c, &all, Some(port)).ok())
                }
                ExchangeAction::Send(f) => self.answers(f),
                ExchangeAction::SendUpgrade(f) => self.answers(f),
                ExchangeAction::Upgrade => ExchangeEvent::Upgraded(true),
            };
            let next = handle_step(req, state, event, &mut self.sessions);
            state = next.0;
            action = next.1;
        }
    }

    fn get(&mut self, host: &str) -> u16 {
        self.run(&request("/test", vec![header("host", host)])).0
    }

    /// Ends an exchange whose answer is being relayed.
    fn close(&mut self, req: &RequestHead, state: Exchange) -> Exchange {
        handle_step(req, state, ExchangeEvent::Closed, &mut self.sessions).0
    }
}

fn backend(id: &str, group: Option<&str>, port: u16) -> (MockContainer, ManagedContainer) {
    let mut c = make_container(id, group);
    c.port = Some(port);
    c.startup_timeout = Duration::from_secs(3);
    c.ip = Some(IP.to_string());
    c.routes = vec![Route { host: format!("{}.localhost", id), port: None }];
    (MockContainer::new(id, IP, port), c)
}

#[test]
fn test_group_G1_proxy_returns_200() {
    let (mc, c) = backend("web", None, 1000);
    let mut p = Proxy::new(vec![mc], vec![c]);
    assert_eq!(p.get("web.localhost"), 200);
    assert!(p.mock.is_running("web"));
}

#[test]
fn test_group_G2_1_proxy_returns_200() {
    let (mc1, c1) = backend("web1", Some("grp"), 1001);
    let (mc2, c2) = backend("web2", Some("grp"), 1002);
    let mut p = Proxy::new(vec![mc1, mc2], vec![c1, c2]);
    assert_eq!(p.get("web1.localhost"), 200);
    assert!(p.mock.is_running("web1"));
    assert!(p.mock.is_running("web2"));
}

#[test]
fn test_group_G2_2_proxy_returns_504() {
    let (mc1, c1) = backend("web1", Some("grp"), 1001);
    let (mut mc2, c2) = backend("web2", Some("grp"), 1002);
    mc2.start_fails = true;
    let mut p = Proxy::new(vec![mc1, mc2], vec![c1, c2]);
    assert_eq!(p.get("web1.localhost"), 504);
}

#[test]
fn test_group_G2_3_proxy_skips_running() {
    let (mut mc1, c1) = backend("web1", Some("grp"), 1001);
    let (mc2, c2) = backend("web2", Some("grp"), 1002);
    mc1.running = true;
    let mut p = Proxy::new(vec![mc1, mc2], vec![c1, c2]);
    assert_eq!(p.get("web1.localhost"), 200);
    assert_eq!(p.mock.start_order(), vec!["web2"]);
    assert!(p.mock.is_running("web1"));
}

#[test]
fn test_grpc_detect_content_type() {
    assert!(is_grpc(&vec![header("content-type", "application/grpc")]));
    assert!(is_grpc(&vec![header("content-type", "application/grpc+proto")]));
    assert!(!is_grpc(&vec![header("content-type", "application/json")]));
    assert!(!is_grpc(&vec![]));
}

#[test]
fn test_sse_A1_active_during_stream_and_released_on_eof() {
    let (mut mc, mut c) = backend("sse", None, 1000);
    mc.running = true;
    c.session_duration = Duration::from_millis(50);
    let mut p = Proxy::new(vec![mc], vec![c]);
    let req = request("/stream", vec![header("host", "sse.localhost")]);
    let (status, state) = p.run(&req);
    assert_eq!(status, 200);
    assert_eq!(p.sessions.active_count("sse"), 1);
    let later = Duration::from_millis(p.mock.now + 100);
    assert!(p.sessions.expired(later).is_empty());
    let state = p.close(&req, state);
    assert_eq!(p.sessions.active_count("sse"), 0);
    assert!(p.sessions.expired(later).contains(&"sse".to_string()));
    p.sessions.connect("sse");
    p.close(&req, state);
    assert_eq!(p.sessions.active_count("sse"), 1);
}

#[test]
fn test_grpc_E33_h2_backend_forward() {
    let (mut mc, c) = backend("grpc", None, 1000);
    mc.running = true;
    let mut p = Proxy::new(vec![mc], vec![c]);
    let req = request(
        "/grpc.health.v1.Health/Check",
        vec![
            header("host", "grpc.localhost"),
            header("content-type", "application/grpc"),
            header("te", "trailers"),
        ],
    );
    assert_eq!(p.run(&req).0, 200);
    assert!(p.sent[0].http2);
    assert_eq!(p.sent[0].url, "http://10.0.0.2:1000/grpc.health.v1.Health/Check");
}

#[test]
fn test_grpc_C3_non_grpc_uses_http1_backend() {
    let (mut mc, c) = backend("grpc", None, 1000);
    mc.running = true;
    let mut p = Proxy::new(vec![mc], vec![c]);
    p.get("grpc.localhost");
    assert!(!p.sent[0].http2);
}

#[test]
fn test_host_resolution_http1_host_header() {
    let mut req = request("/test", vec![header("host", "web.localhost")]);
    req.authority = Some("example.localhost".to_string());
    assert_eq!(resolve_host(&req), "web.localhost");
}

#[test]
fn test_host_resolution_http2_authority() {
    let mut req = request("/grpc.health.v1.Health/Check", vec![]);
    req.authority = Some("grpc.localhost".to_string());
    assert_eq!(resolve_host(&req), "grpc.localhost");
}

#[test]
fn test_host_resolution_authority_with_port() {
    let mut req = request("/", vec![]);
    req.authority = Some("foo.localhost:18000".to_string());
    assert_eq!(resolve_host(&req), "foo.localhost");
}

#[test]
fn a_host_header_that_is_no_text_is_passed_over() {
    let mut req = request("/", vec![]);
    req.headers = vec![Header { name: "host".to_string(), value: vec![0xe3, 0x81, 0x82] }];
    assert_eq!(resolve_host(&req), "");
    req.authority = Some("a.localhost".to_string());
    assert_eq!(resolve_host(&req), "a.localhost");
    req.headers = vec![Header { name: "host".to_string(), value: vec![b'a', 127] }];
    assert_eq!(resolve_host(&req), "a.localhost");
    req.headers = vec![Header { name: "host".to_string(), value: vec![b'b', 9, b' ', b'~'] }];
    assert_eq!(resolve_host(&req), "b\t ~");
    req.headers = vec![header("host", "x:1"), header("host", "y")];
    assert_eq!(resolve_host(&req), "x");
}

#[test]
fn test_static_S1_exact_route_forwards_directly() {
    let (mc, c) = backend("managed", None, 1);
    let mut p = Proxy::new(vec![mc], vec![c]);
    p.router.set_static_routes(&[sre("api.example.com", IP, 7000)]);
    p.open.push("10.0.0.2:7000".to_string());
    assert_eq!(p.get("api.example.com"), 200);
    assert!(p.mock.start_order().is_empty());
}

#[test]
fn test_static_S2_wildcard_route_forwards_directly() {
    let mut p = Proxy::new(vec![], vec![]);
    p.router.set_static_routes(&[sre("*.example.com", IP, 7000)]);
    p.open.push("10.0.0.2:7000".to_string());
    assert_eq!(p.get("foo.example.com"), 200);
    assert_eq!(p.get("a.b.c.example.com"), 200);
    assert_eq!(p.get("example.com"), 404);
}

#[test]
fn test_static_S2b_forward_preserves_original_host() {
    let mut p = Proxy::new(vec![], vec![]);
    p.router.set_static_routes(&[sre("*.duet3.localhost", IP, 7000)]);
    p.open.push("10.0.0.2:7000".to_string());
    assert_eq!(p.get("agent-gateway.duet3.localhost"), 200);
    assert_eq!(pairs(&p.sent[0].headers), vec![("host", "agent-gateway.duet3.localhost")]);
}

#[test]
fn test_static_S3_dynamic_wins_on_conflict() {
    let (mc, c) = backend("web", None, 1000);
    let mut p = Proxy::new(vec![mc], vec![c]);
    p.router.set_static_routes(&[sre("*.localhost", "127.0.0.1", 1)]);
    assert_eq!(p.get("web.localhost"), 200);
    assert!(p.mock.is_running("web"));
    assert_eq!(p.get("other.localhost"), 502);
}

#[test]
fn test_static_S4_exact_beats_wildcard() {
    let mut p = Proxy::new(vec![], vec![]);
    p.router.set_static_routes(&[
        sre("api.example.com", IP, 7001),
        sre("*.example.com", IP, 7000),
    ]);
    p.open.push("10.0.0.2:7000".to_string());
    assert_eq!(p.get("api.example.com"), 502);
    assert_eq!(p.get("other.example.com"), 200);
}

fn ws_headers(protocol: Option<&str>) -> Vec<Header> {
    let mut v = vec![
        header("host", "ws.localhost"),
        header("connection", "Upgrade"),
        header("upgrade", "websocket"),
        header("sec-websocket-key", "dGhlIHNhbXBsZSBub25jZQ=="),
        header("sec-websocket-version", "13"),
    ];
    if let Some(p) = protocol {
        v.push(header("sec-websocket-protocol", p));
    }
    v
}

#[test]
fn test_ws_WS1_handshake_and_protocol_forwarded() {
    let (mut mc, c) = backend("ws", None, 1000);
    mc.running = true;
    let mut p = Proxy::new(vec![mc], vec![c]);
    p.upgrades = true;
    let req = request("/ws?x=1", ws_headers(Some("vite-hmr")));
    let (status, state) = p.run(&req);
    assert_eq!(status, 101);
    assert!(pairs(&p.sent[0].headers).contains(&("sec-websocket-protocol", "vite-hmr")));
    assert!(!pairs(&p.sent[0].headers).iter().any(|(k, _)| *k == "host"));
    assert_eq!(p.sent[0].url, "http://10.0.0.2:1000/ws");
    assert_eq!(p.sent[0].method, "GET");
    assert_eq!(p.sessions.active_count("ws"), 1);
    p.close(&req, state);
    assert_eq!(p.sessions.active_count("ws"), 0);
}

#[test]
fn test_ws_WS2_handshake_without_protocol() {
    let (mut mc, c) = backend("ws", None, 1000);
    mc.running = true;
    let mut p = Proxy::new(vec![mc], vec![c]);
    p.upgrades = true;
    assert_eq!(p.run(&request("/ws", ws_headers(None))).0, 101);
}

#[test]
fn the_proxy_answers_its_own_health_check() {
    let router = Router::new();
    let mut sessions = Sessions::new();
    let req = request("/healthz", vec![]);
    let (_, action) = handle(&req, &router, &mut sessions, Duration::from_secs(1));
    match action {
        ExchangeAction::Reply(r) => assert_eq!((r.status, r.body), (200, "ok\n")),
        _ => panic!("no reply"),
    }
    let req = request("/healthz/x", vec![]);
    let (_, action) = handle(&req, &router, &mut sessions, Duration::from_secs(1));
    match action {
        ExchangeAction::Reply(r) => assert_eq!((r.status, r.body), (404, "no route for host")),
        _ => panic!("no reply"),
    }
}

#[test]
fn failures_are_answered_and_counted_back() {
    let (mut mc, c) = backend("web", None, 1000);
    mc.start_fails = true;
    let mut p = Proxy::new(vec![mc], vec![c.clone()]);
    assert_eq!(p.get("web.localhost"), 504);
    assert_eq!(p.sessions.expired(Duration::from_secs(100_000)), vec!["web"]);

    let mut sessions = Sessions::new();
    let req = request("/", vec![]);
    let s = Exchange::Start { container: c.clone(), port: 1000, ws: false };
    let (s, _) = handle_step(&req, s, ExchangeEvent::Started(Some("a:1".to_string())), &mut sessions);
    assert_eq!(sessions.active_count("web"), 1);
    let (_, a) = handle_step(&req, s, ExchangeEvent::Answered(None), &mut sessions);
    assert!(matches!(a, ExchangeAction::Reply(r) if r.status == 502 && r.body == "backend error"));
    assert_eq!(sessions.active_count("web"), 0);

    let s = Exchange::Upgrading { id: "web".to_string() };
    let (_, a) = handle_step(&req, s, ExchangeEvent::Upgraded(false), &mut sessions);
    assert!(matches!(a, ExchangeAction::Reply(r) if r.status == 502 && r.body == "upgrade failed"));
    assert_eq!(sessions.active_count("web"), 0);

    let s = Exchange::UpgradeSent { id: "web".to_string() };
    let (_, a) = handle_step(&req, s, ExchangeEvent::Answered(Some(403)), &mut sessions);
    assert!(matches!(a, ExchangeAction::RelayBare));
    let (_, a) =
        handle_step(&req, Exchange::UpgradingStatic, ExchangeEvent::Upgraded(true), &mut sessions);
    assert!(matches!(a, ExchangeAction::Bridge));
    let (_, a) = handle_step(
        &req,
        Exchange::UpgradeSentStatic,
        ExchangeEvent::Answered(None),
        &mut sessions,
    );
    assert!(matches!(a, ExchangeAction::Reply(r) if r.status == 502 && r.body == "backend error"));
    let (_, a) = handle_step(&req, Exchange::Done, ExchangeEvent::Closed, &mut sessions);
    assert!(matches!(a, ExchangeAction::Finish));
}

#[test]
fn requests_are_rewritten_for_a_container() {
    let req = request(
        "//a/b?c=d",
        vec![header("host", "x"), header("accept", "*/*"), header("accept", "text/html")],
    );
    let f = forward_to_container(&req, "10.0.0.2:80");
    assert_eq!(f.method, "POST");
    assert_eq!(f.url, "http://10.0.0.2:80/a/b?c=d");
    assert_eq!(pairs(&f.headers), vec![("accept", "*/*"), ("accept", "text/html")]);
    let f = forward_to_static(&req, "10.0.0.2:80");
    assert_eq!(
        pairs(&f.headers),
        vec![("accept", "*/*"), ("accept", "text/html"), ("host", "x")]
    );
    let mut bare = request("/", vec![]);
    bare.path_and_query = None;
    assert_eq!(forward_to_static(&bare, "h").url, "http://h/");
    assert!(forward_to_static(&bare, "h").headers.is_empty());
    assert_eq!(trim_leading_slash("//x/"), "x/");
}

#[test]
fn websocket_requests_are_rewritten() {
    let req = request("/s?q", ws_headers(Some("p")));
    let f = upgrade_to_static(&req, "h:1");
    assert_eq!(f.method, "GET");
    assert_eq!(f.url, "http://h:1/s");
    assert_eq!(
        pairs(&f.headers),
        vec![
            ("connection", "upgrade"),
            ("upgrade", "websocket"),
            ("sec-websocket-key", "dGhlIHNhbXBsZSBub25jZQ=="),
            ("sec-websocket-version", "13"),
            ("host", "ws.localhost"),
        ]
    );
    let f = upgrade_to_static(&request("/", vec![]), "h:1");
    assert_eq!(
        pairs(&f.headers),
        vec![
            ("connection", "upgrade"),
            ("upgrade", "websocket"),
            ("sec-websocket-key", ""),
            ("sec-websocket-version", "13"),
        ]
    );
    assert_eq!(upgrade_to_container(&req, "h:1").headers.len(), 5);
}

#[test]
fn websockets_are_told_by_the_upgrade_header() {
    assert!(is_websocket(&request("/", vec![header("upgrade", "WebSocket")])));
    assert!(!is_websocket(&request("/", vec![header("upgrade", "h2c")])));
    assert!(!is_websocket(&request("/", vec![])));
    assert!(equal_ignoring_case("aBc", "AbC") && !equal_ignoring_case("a", "ab"));
    assert!(!equal_ignoring_case("[", "{") && !equal_ignoring_case("\u{e9}", "\u{c9}"));
}

#[test]
fn upgrade_answers_hand_on_the_last_value_of_each_header() {
    let v = upgrade_headers(&vec![header("a", "1"), header("b", "2"), header("a", "3")]);
    assert_eq!(pairs(&v), vec![("a", "3"), ("b", "2")]);
}

fn tcp_container(id: &str, listen_port: u16, port: u16) -> ManagedContainer {
    let mut c = make_container(id, None);
    c.tcp_expose = vec![TcpExpose { listen_port, container_port: port }];
    c.port = Some(port);
    c.startup_timeout = Duration::from_secs(3);
    c.ip = Some(IP.to_string());
    c
}

fn tunnel(mock: &mut Mock, router: &Router, sessions: &mut Sessions, port: u16) -> (Tunnel, Option<String>) {
    let (mut state, mut action) = handle_conn(port, router, sessions, mock.clock());
    let mut connected = None;
    loop {
        let event = match action {
            TunnelAction::Start(c, port) => {
                let all = router.containers();
                TunnelEvent::Started(mock.ensure_started(&c, &all, Some(port)).ok())
            }
            TunnelAction::Connect(addr) => {
                connected = Some(addr);
                TunnelEvent::Connected(true)
            }
            TunnelAction::Relay => return (state, connected),
            TunnelAction::Close => return (state, None),
        };
        let next = handle_conn_step(state, event, sessions);
        state = next.0;
        action = next.1;
    }
}

#[test]
fn test_tcp_forward() {
    let mut mc = MockContainer::new("tcp-app", IP, 6379);
    mc.running = true;
    let mut mock = Mock::new(vec![mc]);
    let mut router = Router::new();
    router.update(vec![tcp_container("tcp-app", 18102, 6379)]);
    let mut sessions = Sessions::new();
    let (state, addr) = tunnel(&mut mock, &router, &mut sessions, 18102);
    assert_eq!(addr, Some("10.0.0.2:6379".to_string()));
    assert_eq!(sessions.active_count("tcp-app"), 1);
    let (_, action) = handle_conn_step(state, TunnelEvent::Closed, &mut sessions);
    assert!(matches!(action, TunnelAction::Close));
    assert_eq!(sessions.active_count("tcp-app"), 0);
    assert!(mock.start_order().is_empty());
}

#[test]
fn test_tcp_no_route() {
    let mut mock = Mock::new(vec![]);
    let mut router = Router::new();
    router.update(vec![tcp_container("tcp-app", 18102, 6379)]);
    let mut sessions = Sessions::new();
    let (state, addr) = tunnel(&mut mock, &router, &mut sessions, 18103);
    assert!(addr.is_none());
    assert!(matches!(state, Tunnel::Done));
}

#[test]
fn test_tcp_auto_start() {
    let mut mock = Mock::new(vec![MockContainer::new("tcp-on-demand", IP, 6379)]);
    let mut router = Router::new();
    router.update(vec![tcp_container("tcp-on-demand", 18102, 6379)]);
    let mut sessions = Sessions::new();
    let (_, addr) = tunnel(&mut mock, &router, &mut sessions, 18102);
    assert_eq!(addr, Some("10.0.0.2:6379".to_string()));
    assert_eq!(mock.start_order(), vec!["tcp-on-demand"]);
}

#[test]
fn a_tunnel_that_fails_is_counted_back() {
    let mut sessions = Sessions::new();
    let c = tcp_container("a", 1, 2);
    let s = Tunnel::Start { container: c.clone(), port: 2 };
    let (s, a) = handle_conn_step(s, TunnelEvent::Started(Some("host".to_string())), &mut sessions);
    assert!(matches!(a, TunnelAction::Connect(t) if t == "host:2"));
    assert_eq!(sessions.active_count("a"), 1);
    let (s, a) = handle_conn_step(s, TunnelEvent::Connected(false), &mut sessions);
    assert!(matches!(a, TunnelAction::Close));
    assert_eq!(sessions.active_count("a"), 0);
    handle_conn_step(s, TunnelEvent::Closed, &mut sessions);
    let s = Tunnel::Start { container: c, port: 2 };
    let (_, a) = handle_conn_step(s, TunnelEvent::Started(None), &mut sessions);
    assert!(matches!(a, TunnelAction::Close));
    assert_eq!(sessions.active_count("a"), 0);
}

#[test]
fn listeners_follow_the_routes() {
    let (new, stale) = listener_changes(&vec![1, 2, 3], &vec![3, 4]);
    assert_eq!(new, vec![4]);
    assert_eq!(stale, vec![1, 2]);
    assert_eq!(listen_host("127.0.0.1:80"), "127.0.0.1");
    assert_eq!(listen_host("localhost"), "0.0.0.0");
}
