#![allow(non_snake_case)]

use dormant::config::MAX_DEPENDENCY_DEPTH;
use dormant::container::{Dependency, ManagedContainer};
use dormant::dependencies::stop_chain;
use dormant::router::Router;
use dormant::startup::{
    addr_with_port, ensure_group_started, ensure_started_single, ensure_started_step,
    ensure_started_with_port, join_url, status_ok, wait_healthy, wait_healthy_step,
    waits_for_health, HealthAction, HealthEvent, HealthWait, StartAction, StartError, StartEvent,
    StartState,
};
use dormant::starts::{
    start_levels, start_levels_step, LevelAction, LevelError, LevelEvent, LevelState,
};
use dormant::time::Duration;

/// A container as a Docker daemon would keep it.
#[derive(Clone)]
struct MockContainer {
    id: String,
    ip: String,
    port: u16,
    running: bool,
    start_fails: bool,
    status: Option<u16>,
}

impl MockContainer {
    fn new(id: &str, ip: &str, port: u16) -> Self {
        MockContainer {
            id: id.to_string(),
            ip: ip.to_string(),
            port,
            running: false,
            start_fails: false,
            status: Some(200),
        }
    }
}

/// A Docker daemon with a clock of its own.
struct Mock {
    containers: Vec<MockContainer>,
    started: Vec<String>,
    urls: Vec<String>,
    now: u64,
}

impl Mock {
    fn new(containers: Vec<MockContainer>) -> Self {
        Mock { containers, started: Vec::new(), urls: Vec::new(), now: 1_000 }
    }

    fn get(&mut self, id: &str) -> Option<&mut MockContainer> {
        self.containers.iter_mut().find(|c| c.id == id)
    }

    fn is_running(&self, id: &str) -> bool {
        self.containers.iter().any(|c| c.id == id && c.running)
    }

    fn start_order(&self) -> Vec<&str> {
        self.started.iter().map(|s| s.as_str()).collect()
    }

    fn clock(&self) -> Duration {
        Duration::from_millis(self.now)
    }

    /// Starts one container and waits for it as the library says.
    fn ensure_single(
        &mut self,
        c: &ManagedContainer,
        port: Option<u16>,
    ) -> Result<String, StartError> {
        let (mut state, mut action) = ensure_started_single();
        loop {
            let event = match action {
                StartAction::CheckRunning => match self.get(&c.id) {
                    Some(m) => StartEvent::Running(m.running),
                    None => StartEvent::DockerFailed,
                },
                StartAction::ResolveAddress => {
                    StartEvent::Address(self.get(&c.id).map(|m| m.ip.clone()))
                }
                StartAction::Start => match self.get(&c.id) {
                    Some(m) if !m.start_fails => {
                        m.running = true;
                        self.started.push(c.id.clone());
                        StartEvent::Started(self.clock())
                    }
                    _ => StartEvent::DockerFailed,
                },
                StartAction::ProbePort(addr) => StartEvent::PortOpen(
                    self.containers
                        .iter()
                        .any(|m| m.running && format!("{}:{}", m.ip, m.port) == addr),
                ),
                StartAction::CheckHealth(url) => {
                    self.urls.push(url);
                    StartEvent::Status(self.get(&c.id).and_then(|m| m.status))
                }
                StartAction::Pause(d) => {
                    assert_eq!(d, Duration::from_millis(500));
                    self.now += 500;
                    StartEvent::Paused(self.clock())
                }
                StartAction::Ready(addr) => return Ok(addr),
                StartAction::Fail(e) => return Err(e),
            };
            let next = ensure_started_step(c, port, state, event);
            state = next.0;
            action = next.1;
        }
    }

    /// Starts levels as the library says; all members of a level are tried.
    fn run_levels(
        &mut self,
        start: (LevelState, LevelAction),
    ) -> Result<Option<String>, LevelError> {
        let (mut state, mut action) = start;
        loop {
            let event = match action {
                LevelAction::StartLevel(level) => {
                    let mut up = Vec::new();
                    for (c, _) in &level {
                        up.push(self.ensure_single(c, c.port).is_ok());
                    }
                    LevelEvent::Members(up)
                }
                LevelAction::StartTarget(c, port) => {
                    LevelEvent::Started(self.ensure_single(&c, port).ok())
                }
                LevelAction::Ready(addr) => return Ok(addr),
                LevelAction::Fail(e) => return Err(e),
            };
            let next = start_levels_step(state, event);
            state = next.0;
            action = next.1;
        }
    }

    fn ensure_started(
        &mut self,
        c: &ManagedContainer,
        containers: &[ManagedContainer],
        port: Option<u16>,
    ) -> Result<String, LevelError> {
        self.run_levels(ensure_started_with_port(c, containers, port))
            .map(|addr| addr.expect("a started container has an address"))
    }

    fn ensure_group(&mut self, router: &Router, group: &str) -> Result<(), String> {
        let start = match ensure_group_started(router, group) {
            Some(start) => start,
            None => return Err(format!("group {} not found", group)),
        };
        match self.run_levels((start.state, start.action)) {
            Ok(_) => Ok(()),
            Err(e) => Err(format!("{:?}", e)),
        }
    }
}

fn make_container(id: &str, group: Option<&str>) -> ManagedContainer {
    ManagedContainer {
        id: id.to_string(),
        name: format!("/{}-1", id),
        port: Some(8000),
        tcp_expose: Vec::new(),
        group: group.map(|s| s.to_string()),
        session_duration: Duration::from_secs(3600),
        startup_timeout: Duration::from_secs(5),
        healthcheck_path: None,
        healthcheck_port: None,
        healthcheck_status: None,
        routes: Vec::new(),
        aliases: Vec::new(),
        ip: None,
        running: false,
        created: None,
        depends_on: Vec::new(),
        compose_project: None,
        compose_service: None,
        always_on: false,
    }
}

fn managed(id: &str, group: Option<&str>, port: u16, timeout: Duration) -> ManagedContainer {
    let mut c = make_container(id, group);
    c.port = Some(port);
    c.startup_timeout = timeout;
    c
}

fn compose(
    id: &str,
    project: &str,
    service: &str,
    depends_on: Vec<Dependency>,
    port: u16,
) -> ManagedContainer {
    let mut c = make_container(id, None);
    c.compose_project = Some(project.to_string());
    c.compose_service = Some(service.to_string());
    c.depends_on = depends_on;
    c.port = Some(port);
    c.startup_timeout = Duration::from_secs(3);
    c
}

fn dep(service: &str, condition: &str) -> Dependency {
    Dependency { service: service.to_string(), condition: condition.to_string() }
}

const IP: &str = "10.0.0.2";

fn group_of_two() -> (Router, ManagedContainer, ManagedContainer) {
    let c1 = managed("web1", Some("grp"), 1001, Duration::from_secs(3));
    let c2 = managed("web2", Some("grp"), 1002, Duration::from_secs(3));
    let mut router = Router::new();
    router.update(vec![c1.clone(), c2.clone()]);
    (router, c1, c2)
}

#[test]
fn test_http_status_ok_allowed() {
    assert_eq!(join_url("10.0.0.2:80", "/health"), "http://10.0.0.2:80/health");
    assert!(status_ok(Some(200), &vec![200, 204]));
}

#[test]
fn test_http_status_ok_not_allowed() {
    assert!(!status_ok(Some(503), &vec![200]));
    assert!(!status_ok(None, &vec![200]));
    assert!(!status_ok(Some(200), &vec![]));
}

#[test]
fn test_group_G1_single_container_started() {
    let mut mock = Mock::new(vec![MockContainer::new("web", IP, 1000)]);
    let c = managed("web", None, 1000, Duration::from_secs(3));
    let addr = mock.ensure_started(&c, std::slice::from_ref(&c), c.port).unwrap();
    assert_eq!(addr, "10.0.0.2:1000");
    assert!(mock.is_running("web"));
    assert_eq!(mock.start_order(), vec!["web"]);
}

#[test]
fn test_group_G2_starts_all_members() {
    let mut mock =
        Mock::new(vec![MockContainer::new("web1", IP, 1001), MockContainer::new("web2", IP, 1002)]);
    let (router, _, _) = group_of_two();
    mock.ensure_group(&router, "grp").unwrap();
    assert!(mock.is_running("web1"));
    assert!(mock.is_running("web2"));
    let mut order = mock.start_order();
    order.sort();
    assert_eq!(order, vec!["web1", "web2"]);
}

#[test]
fn test_group_G2_1_all_ready_ok() {
    let mut mock =
        Mock::new(vec![MockContainer::new("web1", IP, 1001), MockContainer::new("web2", IP, 1002)]);
    let (router, _, _) = group_of_two();
    assert!(mock.ensure_group(&router, "grp").is_ok());
    assert_eq!(mock.containers.iter().filter(|c| c.running).count(), 2);
}

#[test]
fn test_group_G2_2_partial_failure_err() {
    let mut fail = MockContainer::new("web2", IP, 1002);
    fail.start_fails = true;
    let mut mock = Mock::new(vec![MockContainer::new("web1", IP, 1001), fail]);
    let (router, _, _) = group_of_two();
    assert!(mock.ensure_group(&router, "grp").is_err());
    assert!(mock.is_running("web1"));
}

#[test]
fn test_group_G2_3_skips_running_member() {
    let mut running = MockContainer::new("web1", IP, 1001);
    running.running = true;
    let mut mock = Mock::new(vec![running, MockContainer::new("web2", IP, 1002)]);
    let (router, _, _) = group_of_two();
    mock.ensure_group(&router, "grp").unwrap();
    assert_eq!(mock.start_order(), vec!["web2"]);
}

#[test]
fn test_depends_on_D1_dep_started_first() {
    let mut mock =
        Mock::new(vec![MockContainer::new("db", IP, 1001), MockContainer::new("app", IP, 1002)]);
    let db = compose("db", "proj", "db", vec![], 1001);
    let app = compose("app", "proj", "app", vec![dep("db", "service_started")], 1002);
    mock.ensure_started(&app, &[db.clone(), app.clone()], app.port).unwrap();
    assert_eq!(mock.start_order(), vec!["db", "app"]);
    assert!(mock.is_running("db"));
    assert!(mock.is_running("app"));
}

#[test]
fn test_depends_on_D1_1_managed_dep_started() {
    let mut mock =
        Mock::new(vec![MockContainer::new("db", IP, 1001), MockContainer::new("app", IP, 1002)]);
    let db = compose("db", "proj", "db", vec![], 1001);
    let app = compose("app", "proj", "app", vec![dep("db", "service_started")], 1002);
    let addr = mock.ensure_started(&app, &[db.clone(), app.clone()], app.port).unwrap();
    assert!(mock.is_running("db"));
    assert!(addr.contains(IP));
}

#[test]
fn test_depends_on_D1_1b_dep_without_port_started() {
    let mut mock =
        Mock::new(vec![MockContainer::new("backend", IP, 0), MockContainer::new("web", IP, 1002)]);
    let mut backend = compose("backend", "pb", "backend", vec![], 0);
    backend.port = None;
    let web = compose("web", "pb", "web", vec![dep("backend", "service_started")], 1002);
    let addr = mock.ensure_started(&web, &[backend.clone(), web.clone()], web.port).unwrap();
    assert!(mock.is_running("backend"));
    assert!(mock.is_running("web"));
    assert!(addr.contains(IP));
}

#[test]
fn test_depends_on_D1_2_unmanaged_dep_untouched() {
    let mut mock = Mock::new(vec![MockContainer::new("app", IP, 1002)]);
    let app = compose("app", "proj", "app", vec![dep("external-db", "service_started")], 1002);
    mock.ensure_started(&app, std::slice::from_ref(&app), app.port).unwrap();
    assert_eq!(mock.start_order(), vec!["app"]);
}

#[test]
fn test_depends_on_D1_3_missing_dep_continues() {
    let mut mock = Mock::new(vec![MockContainer::new("app", IP, 1002)]);
    let app = compose("app", "proj", "app", vec![dep("ghost", "service_started")], 1002);
    let addr = mock.ensure_started(&app, std::slice::from_ref(&app), app.port).unwrap();
    assert!(addr.contains(IP));
    assert!(mock.is_running("app"));
}

#[test]
fn test_depends_on_D1_4_multiple_deps_started_first() {
    let mut mock = Mock::new(vec![
        MockContainer::new("db", IP, 1001),
        MockContainer::new("cache", IP, 1002),
        MockContainer::new("app", IP, 1003),
    ]);
    let db = compose("db", "proj", "db", vec![], 1001);
    let cache = compose("cache", "proj", "cache", vec![], 1002);
    let app = compose(
        "app",
        "proj",
        "app",
        vec![dep("db", "service_started"), dep("cache", "service_started")],
        1003,
    );
    mock.ensure_started(&app, &[db.clone(), cache.clone(), app.clone()], app.port).unwrap();
    let order = mock.start_order();
    let db_idx = order.iter().position(|x| *x == "db").unwrap();
    let cache_idx = order.iter().position(|x| *x == "cache").unwrap();
    let app_idx = order.iter().position(|x| *x == "app").unwrap();
    assert!(db_idx < app_idx && cache_idx < app_idx);
    assert!(mock.is_running("db") && mock.is_running("cache") && mock.is_running("app"));
}

#[test]
fn test_depends_on_D2_no_label_single_start() {
    let mut mock = Mock::new(vec![MockContainer::new("solo", IP, 1000)]);
    let c = managed("solo", None, 1000, Duration::from_secs(3));
    mock.ensure_started(&c, std::slice::from_ref(&c), c.port).unwrap();
    assert_eq!(mock.start_order(), vec!["solo"]);
}

fn three_in_a_row() -> (ManagedContainer, ManagedContainer, ManagedContainer, Mock) {
    let mock = Mock::new(vec![
        MockContainer::new("c", IP, 1003),
        MockContainer::new("b", IP, 1002),
        MockContainer::new("a", IP, 1001),
    ]);
    let c = compose("c", "proj", "c", vec![], 1003);
    let b = compose("b", "proj", "b", vec![dep("c", "service_started")], 1002);
    let a = compose("a", "proj", "a", vec![dep("b", "service_started")], 1001);
    (a, b, c, mock)
}

#[test]
fn test_depends_on_D3_cascade_stop() {
    let (a, b, c, mut mock) = three_in_a_row();
    for m in mock.containers.iter_mut() {
        m.running = true;
    }
    let containers = vec![a.clone(), b, c];
    for target in stop_chain(&a, &containers, MAX_DEPENDENCY_DEPTH) {
        mock.get(&target.id).unwrap().running = false;
    }
    assert!(!mock.is_running("a"));
    assert!(!mock.is_running("b"));
    assert!(!mock.is_running("c"));
}

#[test]
fn test_depends_on_D4_recursive_resolution() {
    let (a, b, c, mut mock) = three_in_a_row();
    mock.ensure_started(&a, &[a.clone(), b, c], a.port).unwrap();
    assert_eq!(mock.start_order(), vec!["c", "b", "a"]);
}

#[test]
fn test_depends_on_D4_circular_depth_limited() {
    let mut mock =
        Mock::new(vec![MockContainer::new("a", IP, 1001), MockContainer::new("b", IP, 1002)]);
    let a = compose("a", "proj", "a", vec![dep("b", "service_started")], 1001);
    let b = compose("b", "proj", "b", vec![dep("a", "service_started")], 1002);
    assert!(mock.ensure_started(&a, &[a.clone(), b.clone()], a.port).is_ok());
    assert_eq!(mock.start_order(), vec!["b", "a"]);
}

#[test]
fn a_running_container_is_not_started() {
    let mut m = MockContainer::new("web", IP, 1000);
    m.running = true;
    let mut mock = Mock::new(vec![m]);
    let c = managed("web", None, 1000, Duration::from_secs(3));
    assert_eq!(mock.ensure_single(&c, Some(2000)), Ok("10.0.0.2:2000".to_string()));
    assert_eq!(mock.ensure_single(&c, None), Ok("10.0.0.2:1000".to_string()));
    assert!(mock.start_order().is_empty());
}

#[test]
fn a_running_container_without_an_address_is_where_its_entry_says() {
    let mut c = managed("web", None, 80, Duration::from_secs(3));
    let ask = |c: &ManagedContainer, port: Option<u16>| {
        match ensure_started_step(c, port, StartState::AskAddress, StartEvent::Address(None)) {
            (StartState::Finished, StartAction::Ready(addr)) => addr,
            other => panic!("{:?}", other),
        }
    };
    assert_eq!(ask(&c, Some(8081)), "web:8081");
    assert_eq!(ask(&c, None), "web:80");
    c.ip = Some("10.0.0.2".to_string());
    assert_eq!(ask(&c, Some(8081)), "10.0.0.2:8081");
    assert_eq!(ask(&c, None), "10.0.0.2:80");
    c.port = None;
    assert_eq!(ask(&c, None), "10.0.0.2");
}

#[test]
fn a_port_that_stays_closed_runs_out_of_time() {
    let mut mock = Mock::new(vec![MockContainer::new("web", IP, 1)]);
    let c = managed("web", None, 1000, Duration::from_secs(3));
    assert_eq!(mock.ensure_single(&c, c.port), Err(StartError::NotReady));
    assert_eq!(mock.now, 4_000);
}

#[test]
fn no_time_to_start_is_too_little() {
    let mut mock = Mock::new(vec![MockContainer::new("web", IP, 1000)]);
    let c = managed("web", None, 1000, Duration::from_secs(0));
    assert_eq!(mock.ensure_single(&c, c.port), Err(StartError::NotReady));
    assert_eq!(mock.start_order(), vec!["web"]);
}

#[test]
fn an_unknown_container_fails() {
    let mut mock = Mock::new(vec![]);
    let c = managed("web", None, 1000, Duration::from_secs(3));
    assert_eq!(mock.ensure_single(&c, c.port), Err(StartError::Docker));
}

#[test]
fn the_health_check_is_asked_where_status_codes_are_set() {
    let mut mock = Mock::new(vec![MockContainer::new("web", IP, 1000)]);
    let mut c = managed("web", None, 1000, Duration::from_secs(3));
    c.healthcheck_status = Some(vec![200]);
    assert_eq!(mock.ensure_single(&c, c.port), Ok("10.0.0.2:1000".to_string()));
    assert_eq!(mock.urls, vec!["http://10.0.0.2:1000/"]);

    let mut m = MockContainer::new("web", IP, 1000);
    m.status = Some(503);
    let mut mock = Mock::new(vec![m]);
    c.healthcheck_path = Some("//up".to_string());
    c.healthcheck_port = Some(9000);
    assert_eq!(mock.ensure_single(&c, c.port), Err(StartError::NotReady));
    assert_eq!(mock.urls.len(), 6);
    assert_eq!(mock.urls[0], "http://10.0.0.2:9000/up");
}

#[test]
fn waiting_until_running_and_addressed() {
    let c = managed("web", None, 1000, Duration::from_secs(3));
    let s = StartState::AwaitRunning { deadline: 5_000_000_000 };
    let (s, a) = ensure_started_step(&c, None, s, StartEvent::Running(false));
    assert!(matches!(a, StartAction::Pause(_)));
    let (s, a) = ensure_started_step(&c, None, s, StartEvent::Paused(Duration::from_secs(4)));
    assert!(matches!(a, StartAction::CheckRunning));
    let (s, _) = ensure_started_step(&c, None, s, StartEvent::Running(true));
    let (s, a) = ensure_started_step(&c, None, s, StartEvent::Address(None));
    assert!(matches!(a, StartAction::Pause(_)));
    let (s, a) = ensure_started_step(&c, None, s, StartEvent::Paused(Duration::from_secs(4)));
    assert!(matches!(a, StartAction::ResolveAddress));
    let (_, a) = ensure_started_step(&c, None, s, StartEvent::DockerFailed);
    assert!(matches!(a, StartAction::Fail(StartError::Docker)));
}

#[test]
fn a_container_without_a_port_is_ready_with_its_address() {
    let mut mock = Mock::new(vec![MockContainer::new("db", IP, 0)]);
    let mut c = managed("db", None, 0, Duration::from_secs(3));
    c.port = None;
    assert_eq!(mock.ensure_single(&c, None), Ok(IP.to_string()));
    assert_eq!(addr_with_port(IP, None), IP);
    assert_eq!(addr_with_port(IP, Some(5)), "10.0.0.2:5");
}

#[test]
fn healthy_dependencies_are_waited_for() {
    assert!(waits_for_health(&Some("service_healthy".to_string())));
    assert!(!waits_for_health(&Some("service_started".to_string())));
    assert!(!waits_for_health(&None));
    let c = managed("db", None, 1000, Duration::from_secs(3));
    let (s, a) = wait_healthy(&c, Duration::from_secs(10));
    assert_eq!(a, HealthAction::CheckReady);
    let (s, a) = wait_healthy_step(s, HealthEvent::Ready(false));
    assert_eq!(a, HealthAction::Pause(Duration::from_millis(500)));
    let (s, a) = wait_healthy_step(s, HealthEvent::Paused(Duration::from_secs(12)));
    assert_eq!(a, HealthAction::CheckReady);
    assert_eq!(wait_healthy_step(s, HealthEvent::Ready(true)).1, HealthAction::Healthy);
    assert_eq!(
        wait_healthy_step(s, HealthEvent::DockerFailed).1,
        HealthAction::Fail(StartError::Docker)
    );
    let s = HealthWait::Pausing { deadline: 13_000_000_000 };
    assert_eq!(
        wait_healthy_step(s, HealthEvent::Paused(Duration::from_secs(13))).1,
        HealthAction::Fail(StartError::NotHealthy)
    );
}

#[test]
fn a_group_may_take_as_long_as_its_slowest_member() {
    let mut c1 = managed("web1", Some("grp"), 1001, Duration::from_secs(3));
    let c2 = managed("web2", Some("grp"), 1002, Duration::from_secs(9));
    let c3 = managed("web3", Some("grp"), 1003, Duration::from_secs(5));
    c1.compose_project = Some("p".to_string());
    let mut router = Router::new();
    router.update(vec![c1, c2, c3]);
    let start = ensure_group_started(&router, "grp").unwrap();
    assert_eq!(start.timeout, Duration::from_secs(9));
    assert!(matches!(start.action, LevelAction::StartLevel(level) if level.len() == 3));
    assert!(matches!(start.state, LevelState::Level { size: 3, later, target: None } if later.is_empty()));
    assert!(ensure_group_started(&router, "none").is_none());
}

#[test]
fn a_failed_dependency_keeps_the_container_from_starting() {
    let mut fail = MockContainer::new("db", IP, 1001);
    fail.start_fails = true;
    let mut mock = Mock::new(vec![fail, MockContainer::new("app", IP, 1002)]);
    let db = compose("db", "proj", "db", vec![], 1001);
    let app = compose("app", "proj", "app", vec![dep("db", "service_started")], 1002);
    let result = mock.ensure_started(&app, &[db, app.clone()], app.port);
    assert_eq!(result, Err(LevelError::Member));
    assert!(mock.start_order().is_empty());
}

#[test]
fn a_container_that_does_not_come_up_is_an_error() {
    let mut fail = MockContainer::new("web", IP, 1000);
    fail.start_fails = true;
    let mut mock = Mock::new(vec![fail]);
    let c = managed("web", None, 1000, Duration::from_secs(3));
    assert_eq!(
        mock.ensure_started(&c, std::slice::from_ref(&c), c.port),
        Err(LevelError::Target)
    );
}

#[test]
fn a_dependency_of_a_dependency_starts_first() {
    let mut mock = Mock::new(vec![
        MockContainer::new("db", IP, 1001),
        MockContainer::new("mid", IP, 1002),
        MockContainer::new("app", IP, 1003),
    ]);
    let db = compose("db", "proj", "db", vec![], 1001);
    let mid = compose("mid", "proj", "mid", vec![dep("db", "service_started")], 1002);
    let app = compose(
        "app",
        "proj",
        "app",
        vec![dep("mid", "service_started"), dep("db", "service_started")],
        1003,
    );
    mock.ensure_started(&app, &[mid, db, app.clone()], app.port).unwrap();
    assert_eq!(mock.start_order(), vec!["db", "mid", "app"]);
}

#[test]
fn a_group_runs_out_of_time() {
    let (router, _, _) = group_of_two();
    let start = ensure_group_started(&router, "grp").unwrap();
    let (state, action) = start_levels_step(start.state, LevelEvent::TimedOut);
    assert!(matches!(state, LevelState::Finished));
    assert!(matches!(action, LevelAction::Fail(LevelError::TimedOut)));
    let (state, action) = start_levels_step(state, LevelEvent::Members(vec![true, true]));
    assert!(matches!(state, LevelState::Finished));
    assert!(matches!(action, LevelAction::Fail(_)));
}

#[test]
fn levels_follow_one_another() {
    let a = make_container("a", None);
    let b = make_container("b", None);
    let t = make_container("t", None);
    let levels = vec![vec![(a, None)], vec![(b, None)]];
    let (state, action) = start_levels(levels, Some((t, Some(7))));
    assert!(matches!(action, LevelAction::StartLevel(l) if l[0].0.id == "a"));
    let (state, action) = start_levels_step(state, LevelEvent::Members(vec![true]));
    assert!(matches!(action, LevelAction::StartLevel(l) if l[0].0.id == "b"));
    let (state, action) = start_levels_step(state, LevelEvent::Members(vec![true]));
    assert!(matches!(action, LevelAction::StartTarget(c, Some(7)) if c.id == "t"));
    let (state, action) = start_levels_step(state, LevelEvent::Started(Some("x:7".to_string())));
    assert!(matches!(action, LevelAction::Ready(Some(addr)) if addr == "x:7"));
    assert!(matches!(state, LevelState::Finished));
    let (_, action) = start_levels(Vec::new(), None);
    assert!(matches!(action, LevelAction::Ready(None)));
}

#[test]
fn a_level_with_a_missing_answer_is_not_up() {
    let level = vec![(make_container("a", None), None), (make_container("b", None), None)];
    let (state, _) = start_levels(vec![level], None);
    let (_, action) = start_levels_step(state, LevelEvent::Members(vec![true]));
    assert!(matches!(action, LevelAction::Fail(LevelError::Member)));
}
