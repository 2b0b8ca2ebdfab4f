use dormant::aliases::{
    collect_route_hosts, plan_self_aliases, sync_self_aliases, sync_self_aliases_step, AliasAction,
    AliasEvent, AliasPlan, AliasState,
};
use dormant::container::{ManagedContainer, Route};
use dormant::docker::{
    own_hostname, own_id, resolve_ip, route_action, watch_events_step, AddressError, HealthStatus,
    Inspection, Network, Started, WatchAction, WatchEvent,
};
use dormant::router::Router;
use dormant::time::Duration;

fn make_container(id: &str) -> ManagedContainer {
    ManagedContainer {
        id: id.to_string(),
        name: format!("/{}-1", id),
        port: Some(8000),
        tcp_expose: Vec::new(),
        group: None,
        session_duration: Duration::from_secs(3600),
        startup_timeout: Duration::from_secs(5),
        healthcheck_path: None,
        healthcheck_port: None,
        healthcheck_status: None,
        routes: Vec::new(),
        aliases: Vec::new(),
        ip: None,
        running: false,
        created: None,
        depends_on: Vec::new(),
        compose_project: None,
        compose_service: None,
        always_on: false,
    }
}

fn route(host: &str, port: Option<u16>) -> Route {
    Route { host: host.to_string(), port }
}

fn router_with_hosts(hosts: &[&str]) -> Router {
    let mut c = make_container("app");
    c.routes = hosts.iter().map(|h| route(h, None)).collect();
    let mut router = Router::new();
    router.update(vec![c]);
    router
}

/// The proxy's own container on one network, as a Docker daemon would keep it.
struct OwnContainer {
    id: Option<String>,
    name: Option<String>,
    aliases: Option<Vec<String>>,
    connect_fails: bool,
    connects: Vec<(String, Vec<String>)>,
    disconnects: Vec<String>,
}

impl OwnContainer {
    fn new(aliases: Option<&[&str]>) -> Self {
        OwnContainer {
            id: Some("self".to_string()),
            name: None,
            aliases: aliases.map(|v| v.iter().map(|s| s.to_string()).collect()),
            connect_fails: false,
            connects: Vec::new(),
            disconnects: Vec::new(),
        }
    }

    fn sync(&mut self, router: &Router) {
        let (mut state, mut action) = sync_self_aliases(collect_route_hosts(router));
        loop {
            let event = match action {
                AliasAction::ResolveSelfId => AliasEvent::SelfId(self.id.clone()),
                AliasAction::Inspect(id) => {
                    assert_eq!(id, "self");
                    AliasEvent::Attached(Some(self.aliases.clone()))
                }
                AliasAction::ResolveSelfName => AliasEvent::SelfName(self.name.clone()),
                AliasAction::Disconnect(id) => {
                    self.disconnects.push(id);
                    self.aliases = None;
                    AliasEvent::Disconnected(true)
                }
                AliasAction::Connect(id, aliases) => {
                    self.connects.push((id, aliases.clone()));
                    if !self.connect_fails {
                        self.aliases = Some(aliases);
                    }
                    AliasEvent::Connected(!self.connect_fails)
                }
                AliasAction::Finish => return,
            };
            let next = sync_self_aliases_step(state, event);
            state = next.0;
            action = next.1;
        }
    }
}

#[test]
fn test_collect_route_hosts_includes_aliases() {
    let mut c = make_container("app");
    c.routes = vec![route("shared.example.com", None), route("app.example.com", None)];
    c.aliases = vec!["shared.example.com".to_string(), "myredis.local".to_string()];
    let mut router = Router::new();
    router.update(vec![c]);
    let hosts = collect_route_hosts(&router);
    assert_eq!(
        hosts,
        vec![
            "app.example.com".to_string(),
            "myredis.local".to_string(),
            "shared.example.com".to_string(),
        ]
    );
}

#[test]
fn test_collect_route_hosts_dedup() {
    let mut a = make_container("a");
    a.routes = vec![route("app.example.com", None), route("shared.example.com", Some(8080))];
    let mut b = make_container("b");
    b.routes = vec![route("shared.example.com", None)];
    let mut router = Router::new();
    router.update(vec![a, b]);
    let hosts = collect_route_hosts(&router);
    assert_eq!(hosts, vec!["app.example.com", "shared.example.com"]);
}

#[test]
fn empty_names_are_not_collected() {
    let mut a = make_container("a");
    a.routes = vec![route("", Some(80))];
    a.aliases = vec!["".to_string()];
    let mut router = Router::new();
    router.update(vec![a]);
    assert!(collect_route_hosts(&router).is_empty());
}

#[test]
fn test_sync_self_aliases_connects_with_missing_hosts() {
    let mut own = OwnContainer::new(None);
    own.sync(&router_with_hosts(&["app.example.com", "api.example.com"]));
    assert_eq!(own.connects.len(), 1);
    assert_eq!(own.connects[0].0, "self");
    assert_eq!(own.connects[0].1, vec!["api.example.com", "app.example.com"]);
}

#[test]
fn test_sync_self_aliases_from_alias_label() {
    let mut c = make_container("redis");
    c.aliases = vec!["myredis.local".to_string()];
    let mut router = Router::new();
    router.update(vec![c]);
    let mut own = OwnContainer::new(None);
    own.sync(&router);
    assert_eq!(own.connects.len(), 1);
    assert_eq!(own.connects[0].1, vec!["myredis.local"]);
}

#[test]
fn test_sync_self_aliases_idempotent() {
    let mut own = OwnContainer::new(Some(&["app.example.com", "api.example.com"]));
    own.sync(&router_with_hosts(&["app.example.com", "api.example.com"]));
    assert!(own.connects.is_empty());
}

#[test]
fn test_sync_self_aliases_partial_reconnects_with_merged() {
    let mut own = OwnContainer::new(Some(&["app.example.com"]));
    own.sync(&router_with_hosts(&["app.example.com", "api.example.com"]));
    assert_eq!(own.disconnects, vec!["self"]);
    assert_eq!(own.connects.len(), 1);
    assert_eq!(own.connects[0].0, "self");
    assert_eq!(own.connects[0].1, vec!["api.example.com", "app.example.com"]);
}

#[test]
fn test_sync_self_aliases_connect_conflict_swallowed() {
    let mut own = OwnContainer::new(Some(&["app.example.com"]));
    own.connect_fails = true;
    own.sync(&router_with_hosts(&["app.example.com", "api.example.com"]));
    assert_eq!(own.disconnects.len(), 1);
    assert_eq!(own.connects.len(), 1);
}

#[test]
fn test_sync_self_aliases_no_routes() {
    let mut own = OwnContainer::new(None);
    own.sync(&Router::new());
    assert!(own.connects.is_empty());
}

#[test]
fn test_sync_self_aliases_cannot_resolve_self() {
    let mut own = OwnContainer::new(None);
    own.id = None;
    own.sync(&router_with_hosts(&["app.example.com"]));
    assert!(own.connects.is_empty());
}

#[test]
fn a_second_round_changes_nothing() {
    let router = router_with_hosts(&["app.example.com", "api.example.com"]);
    let mut own = OwnContainer::new(Some(&["old.example.com", "proxy", "proxy.lan"]));
    own.name = Some("proxy.lan".to_string());
    own.sync(&router);
    assert_eq!(
        own.connects[0].1,
        vec!["api.example.com", "app.example.com", "proxy", "proxy.lan"]
    );
    own.sync(&router);
    assert_eq!(own.connects.len(), 1);
    assert_eq!(own.disconnects.len(), 1);
}

#[test]
fn failed_lookups_and_disconnects_end_the_round() {
    let hosts = vec!["a".to_string()];
    let (state, _) = sync_self_aliases(hosts.clone());
    let (state, action) = sync_self_aliases_step(state, AliasEvent::SelfId(Some("x".to_string())));
    assert!(matches!(action, AliasAction::Inspect(id) if id == "x"));
    let (_, action) = sync_self_aliases_step(state, AliasEvent::Attached(None));
    assert!(matches!(action, AliasAction::Finish));
    let state = AliasState::NeedDisconnect { id: "x".to_string(), aliases: hosts };
    let (state, action) = sync_self_aliases_step(state, AliasEvent::Disconnected(false));
    assert!(matches!(action, AliasAction::Finish));
    assert!(matches!(state, AliasState::Finished));
}

#[test]
fn plans_for_every_case() {
    let hosts = vec!["b".to_string(), "a".to_string()];
    assert!(matches!(plan_self_aliases(&vec![], &None, &None), AliasPlan::Keep));
    assert!(matches!(
        plan_self_aliases(&hosts, &None, &None),
        AliasPlan::Connect(v) if v == vec!["b", "a"]
    ));
    let current = Some(vec!["a".to_string(), "b".to_string()]);
    assert!(matches!(plan_self_aliases(&hosts, &current, &None), AliasPlan::Keep));
    let current = Some(vec!["z".to_string(), "a".to_string()]);
    assert!(matches!(
        plan_self_aliases(&hosts, &current, &None),
        AliasPlan::Reconnect(v) if v == vec!["a", "b"]
    ));
}

fn networks() -> Vec<Network> {
    vec![
        Network { name: "trace".to_string(), ip: Some("172.21.0.2".to_string()) },
        Network { name: "global".to_string(), ip: Some("172.22.0.3".to_string()) },
    ]
}

#[test]
fn test_resolve_ip_prefers_shared_network() {
    let ip = resolve_ip("app", &networks(), &vec!["global".to_string()]).unwrap();
    assert_eq!(ip, "172.22.0.3");
}

#[test]
fn test_resolve_ip_falls_back_when_no_shared_network() {
    let ip = resolve_ip("app", &networks(), &vec![]).unwrap();
    assert!(ip == "172.21.0.2" || ip == "172.22.0.3");
}

#[test]
fn empty_addresses_count_as_none() {
    let nets = vec![
        Network { name: "global".to_string(), ip: Some(String::new()) },
        Network { name: "x".to_string(), ip: None },
        Network { name: "y".to_string(), ip: Some("10.0.0.9".to_string()) },
    ];
    assert_eq!(resolve_ip("app", &nets, &vec!["global".to_string()]).unwrap(), "10.0.0.9");
    match resolve_ip("app", &vec![], &vec![]) {
        Err(e) => {
            assert_eq!(e.message(), "container app has no IP");
            assert!(matches!(e, AddressError::NoAddress(id) if id == "app"));
        }
        Ok(_) => panic!("an address out of nothing"),
    }
}

#[test]
fn readiness_asks_for_health_where_it_is_checked() {
    let i = |running, health| Inspection { running, health };
    assert!(!i(None, None).is_running());
    assert!(i(Some(true), None).is_ready());
    assert!(!i(Some(false), Some(HealthStatus::Healthy)).is_ready());
    assert!(i(Some(true), Some(HealthStatus::Healthy)).is_ready());
    assert!(!i(Some(true), Some(HealthStatus::Starting)).is_ready());
    assert!(!i(Some(true), Some(HealthStatus::Unchecked)).is_ready());
    assert!(!i(Some(true), Some(HealthStatus::Empty)).is_ready());
    assert!(!i(Some(true), Some(HealthStatus::Unhealthy)).is_ready());
}

#[test]
fn events_that_change_routes() {
    for a in ["create", "start", "stop", "destroy", "die", "rename"] {
        assert!(route_action(a));
        let e = WatchEvent::Event(Some(a.to_string()));
        assert_eq!(watch_events_step(&e, true), WatchAction::SyncRoutes);
    }
    assert!(!route_action("exec_start") && !route_action(""));
    let e = WatchEvent::Event(Some("pause".to_string()));
    assert_eq!(watch_events_step(&e, true), WatchAction::Next);
    assert_eq!(watch_events_step(&WatchEvent::Event(None), true), WatchAction::Next);
    assert_eq!(watch_events_step(&WatchEvent::RoutesSynced, true), WatchAction::SyncAliases);
    assert_eq!(watch_events_step(&WatchEvent::RoutesSynced, false), WatchAction::Next);
    assert_eq!(watch_events_step(&WatchEvent::RoutesFailed, true), WatchAction::Next);
    assert_eq!(watch_events_step(&WatchEvent::AliasesSynced, true), WatchAction::Next);
    assert_eq!(watch_events_step(&WatchEvent::Waited, true), WatchAction::Next);
    assert_eq!(
        watch_events_step(&WatchEvent::StreamError, true),
        WatchAction::Wait(Duration::from_secs(1))
    );
}

#[test]
fn the_proxy_itself() {
    assert_eq!(own_hostname("abc\n"), "abc");
    assert_eq!(own_id("h".to_string(), Some(Some("id".to_string()))), Some("id".to_string()));
    assert_eq!(own_id("h".to_string(), Some(None)), Some("h".to_string()));
    assert_eq!(own_id("h".to_string(), None), None);
}

#[test]
fn started_containers_are_remembered_until_forgotten() {
    let mut s = Started::new();
    s.record("a");
    s.record("b");
    s.record("a");
    assert_eq!(s.started_by_dormant(), vec!["a", "b"]);
    s.forget_started("a");
    s.forget_started("c");
    assert_eq!(s.started_by_dormant(), vec!["b"]);
}
