use dormant::config::{
    DEFAULT_SESSION_DURATION, DEFAULT_STARTUP_TIMEOUT, LABEL_ALIAS, LABEL_ALWAYS_ON,
    LABEL_COMPOSE_DEPENDS_ON, LABEL_COMPOSE_PROJECT, LABEL_COMPOSE_SERVICE, LABEL_ENABLE,
    LABEL_GROUP, LABEL_HEALTHCHECK_PATH, LABEL_HEALTHCHECK_PORT, LABEL_HEALTHCHECK_STATUS,
    LABEL_HOST, LABEL_SESSION_DURATION, LABEL_STARTUP_TIMEOUT, LABEL_TCP,
};
use dormant::container::{Dependency, ManagedContainer, Route, TcpExpose};
use dormant::docker::list_managed;
use dormant::labels::{
    parse_aliases, parse_container, parse_depends_on, parse_route, parse_routes, parse_statuses,
    parse_tcp_expose, parse_tcp_exposes, ContainerState, ContainerSummary,
};
use dormant::string_map::StringMap;
use dormant::time::{duration_or, parse_duration, read_duration, readable, Duration};

#[test]
fn test_parse_duration() {
    assert_eq!(
        parse_duration(Some("30m"), DEFAULT_SESSION_DURATION),
        Duration::from_secs(1800)
    );
    assert_eq!(
        parse_duration(Some("90s"), DEFAULT_SESSION_DURATION),
        Duration::from_secs(90)
    );
    assert_eq!(
        parse_duration(Some("abc"), DEFAULT_SESSION_DURATION),
        Duration::from_secs(3600)
    );
}

#[test]
fn test_parse_tcp_expose() {
    assert_eq!(
        parse_tcp_expose("6334"),
        Some(TcpExpose {
            listen_port: 6334,
            container_port: 6334,
        })
    );
    assert_eq!(
        parse_tcp_expose("6334:8000"),
        Some(TcpExpose {
            listen_port: 6334,
            container_port: 8000,
        })
    );
    assert_eq!(
        parse_tcp_expose(" 6334 : 9000 "),
        Some(TcpExpose {
            listen_port: 6334,
            container_port: 9000,
        })
    );
    assert_eq!(parse_tcp_expose("abc"), None);
    assert_eq!(parse_tcp_expose(""), None);
    assert_eq!(parse_tcp_expose("0"), None);
    assert_eq!(parse_tcp_expose("6334:0"), None);
    assert_eq!(parse_tcp_expose("99999"), None);
}

#[test]
fn test_parse_tcp_exposes_multi() {
    assert_eq!(
        parse_tcp_exposes("6334:9000,6379"),
        vec![
            TcpExpose {
                listen_port: 6334,
                container_port: 9000,
            },
            TcpExpose {
                listen_port: 6379,
                container_port: 6379,
            },
        ]
    );
    assert_eq!(
        parse_tcp_exposes("6334,,6379"),
        vec![
            TcpExpose {
                listen_port: 6334,
                container_port: 6334,
            },
            TcpExpose {
                listen_port: 6379,
                container_port: 6379,
            },
        ]
    );
    assert_eq!(parse_tcp_exposes(""), Vec::<TcpExpose>::new());
}

#[test]
fn test_parse_route() {
    assert_eq!(
        parse_route("app.example.com"),
        Some(Route {
            host: "app.example.com".to_string(),
            port: None,
        })
    );
    assert_eq!(
        parse_route("api.example.com:8080"),
        Some(Route {
            host: "api.example.com".to_string(),
            port: Some(8080),
        })
    );
    assert_eq!(parse_route(""), None);
    assert_eq!(
        parse_route("host-with-colon:abc"),
        Some(Route {
            host: "host-with-colon:abc".to_string(),
            port: None,
        })
    );
}

#[test]
fn test_parse_routes_multi() {
    assert_eq!(
        parse_routes("api.example.com:8080, web.example.com"),
        vec![
            Route {
                host: "api.example.com".to_string(),
                port: Some(8080),
            },
            Route {
                host: "web.example.com".to_string(),
                port: None,
            },
        ]
    );
    assert_eq!(parse_routes(""), Vec::<Route>::new());
}

#[test]
fn test_parse_container_tcp_expose() {
    let mut labels = StringMap::new();
    labels.insert(LABEL_ENABLE.to_string(), "true".to_string());
    labels.insert(LABEL_TCP.to_string(), "6334:9000".to_string());
    let c = ContainerSummary {
        id: Some("abc123".to_string()),
        names: Some(vec!["/test-1".to_string()]),
        labels: Some(labels),
        ..Default::default()
    };
    let m = parse_container(&c).unwrap();
    assert_eq!(
        m.tcp_expose,
        vec![TcpExpose {
            listen_port: 6334,
            container_port: 9000,
        }]
    );
}

#[test]
fn test_parse_container_host_and_healthcheck_status() {
    let mut labels = StringMap::new();
    labels.insert(LABEL_ENABLE.to_string(), "true".to_string());
    labels.insert("dormant.port".to_string(), "8080".to_string());
    labels.insert(
        LABEL_HOST.to_string(),
        "app.example.com, api.example.com".to_string(),
    );
    labels.insert(
        LABEL_HEALTHCHECK_STATUS.to_string(),
        "200,204,abc".to_string(),
    );
    let c = ContainerSummary {
        id: Some("abc123".to_string()),
        names: Some(vec!["/test-1".to_string()]),
        labels: Some(labels),
        ..Default::default()
    };
    let m = parse_container(&c).unwrap();
    assert_eq!(
        m.routes,
        vec![
            Route {
                host: "app.example.com".to_string(),
                port: None,
            },
            Route {
                host: "api.example.com".to_string(),
                port: None,
            },
        ]
    );
    assert_eq!(m.healthcheck_status, Some(vec![200, 204]));
}

#[test]
fn test_parse_container_always_on() {
    let mut labels = StringMap::new();
    labels.insert(LABEL_ENABLE.to_string(), "true".to_string());
    labels.insert(LABEL_ALWAYS_ON.to_string(), "true".to_string());
    let c = ContainerSummary {
        id: Some("abc123".to_string()),
        names: Some(vec!["/test-1".to_string()]),
        labels: Some(labels),
        ..Default::default()
    };
    let m = parse_container(&c).unwrap();
    assert!(m.always_on);

    let mut labels = StringMap::new();
    labels.insert(LABEL_ENABLE.to_string(), "true".to_string());
    let c = ContainerSummary {
        id: Some("abc123".to_string()),
        names: Some(vec!["/test-1".to_string()]),
        labels: Some(labels),
        ..Default::default()
    };
    let m = parse_container(&c).unwrap();
    assert!(!m.always_on);

    let mut labels = StringMap::new();
    labels.insert(LABEL_ENABLE.to_string(), "true".to_string());
    labels.insert(LABEL_ALWAYS_ON.to_string(), "1".to_string());
    let c = ContainerSummary {
        id: Some("abc123".to_string()),
        names: Some(vec!["/test-1".to_string()]),
        labels: Some(labels),
        ..Default::default()
    };
    let m = parse_container(&c).unwrap();
    assert!(!m.always_on);
}

#[test]
fn test_parse_aliases() {
    assert_eq!(
        parse_aliases("myredis.local, mydb.local"),
        vec!["myredis.local".to_string(), "mydb.local".to_string()]
    );
    assert_eq!(
        parse_aliases(" a.local ,, b.local "),
        vec!["a.local".to_string(), "b.local".to_string()]
    );
    assert_eq!(parse_aliases(""), Vec::<String>::new());
    assert_eq!(parse_aliases("   "), Vec::<String>::new());
}

#[test]
fn test_parse_container_aliases() {
    let mut labels = StringMap::new();
    labels.insert(LABEL_ENABLE.to_string(), "true".to_string());
    labels.insert(LABEL_HOST.to_string(), "app.example.com".to_string());
    labels.insert(LABEL_ALIAS.to_string(), "myredis.local, mydb.local".to_string());
    let c = ContainerSummary {
        id: Some("abc123".to_string()),
        names: Some(vec!["/test-1".to_string()]),
        labels: Some(labels),
        ..Default::default()
    };
    let m = parse_container(&c).unwrap();
    assert_eq!(
        m.routes,
        vec![Route {
            host: "app.example.com".to_string(),
            port: None,
        }]
    );
    assert_eq!(
        m.aliases,
        vec!["myredis.local".to_string(), "mydb.local".to_string()]
    );
}

#[test]
fn test_parse_container_depends_on() {
    let mut labels = StringMap::new();
    labels.insert(LABEL_ENABLE.to_string(), "true".to_string());
    labels.insert("dormant.port".to_string(), "8080".to_string());
    labels.insert(
        LABEL_COMPOSE_DEPENDS_ON.to_string(),
        "searxng-valkey:service_started:false,db:service_healthy:true".to_string(),
    );
    labels.insert(LABEL_COMPOSE_PROJECT.to_string(), "prospector".to_string());
    labels.insert(LABEL_COMPOSE_SERVICE.to_string(), "searxng".to_string());
    let c = ContainerSummary {
        id: Some("abc123".to_string()),
        names: Some(vec!["/prospector-searxng-1".to_string()]),
        labels: Some(labels),
        ..Default::default()
    };
    let m = parse_container(&c).unwrap();
    assert_eq!(m.compose_project.as_deref(), Some("prospector"));
    assert_eq!(m.compose_service.as_deref(), Some("searxng"));
    assert_eq!(m.depends_on.len(), 2);
    assert_eq!(m.depends_on[0].service, "searxng-valkey");
    assert_eq!(m.depends_on[0].condition, "service_started");
    assert_eq!(m.depends_on[1].service, "db");
    assert_eq!(m.depends_on[1].condition, "service_healthy");
}

#[test]
fn test_resolve_dependencies() {
    let dep = ManagedContainer {
        id: "id-dep".to_string(),
        name: "/dep-1".to_string(),
        port: Some(8000),
        tcp_expose: Vec::new(),
        group: None,
        session_duration: Duration::from_secs(3600),
        startup_timeout: Duration::from_secs(180),
        healthcheck_path: None,
        healthcheck_port: None,
        healthcheck_status: None,
        routes: Vec::new(),
        aliases: Vec::new(),
        ip: None,
        running: false,
        created: None,
        depends_on: Vec::new(),
        compose_project: Some("proj".to_string()),
        compose_service: Some("db".to_string()),
        always_on: false,
    };
    let app = ManagedContainer {
        id: "id-app".to_string(),
        name: "app-1".to_string(),
        port: Some(8000),
        tcp_expose: Vec::new(),
        group: None,
        session_duration: Duration::from_secs(3600),
        startup_timeout: Duration::from_secs(180),
        healthcheck_path: None,
        healthcheck_port: None,
        healthcheck_status: None,
        routes: Vec::new(),
        aliases: Vec::new(),
        ip: None,
        running: false,
        created: None,
        depends_on: vec![
            Dependency {
                service: "db".to_string(),
                condition: "service_started".to_string(),
            },
            Dependency {
                service: "cache".to_string(),
                condition: "service_healthy".to_string(),
            },
        ],
        compose_project: Some("proj".to_string()),
        compose_service: Some("app".to_string()),
        always_on: false,
    };
    let other = ManagedContainer {
        id: "id-other".to_string(),
        name: "other-1".to_string(),
        port: Some(8000),
        tcp_expose: Vec::new(),
        group: None,
        session_duration: Duration::from_secs(3600),
        startup_timeout: Duration::from_secs(180),
        healthcheck_path: None,
        healthcheck_port: None,
        healthcheck_status: None,
        routes: Vec::new(),
        aliases: Vec::new(),
        ip: None,
        running: false,
        created: None,
        depends_on: Vec::new(),
        compose_project: Some("other-proj".to_string()),
        compose_service: Some("db".to_string()),
        always_on: false,
    };
    let cache = ManagedContainer {
        id: "id-cache".to_string(),
        name: "cache-1".to_string(),
        port: Some(8000),
        tcp_expose: Vec::new(),
        group: None,
        session_duration: Duration::from_secs(3600),
        startup_timeout: Duration::from_secs(180),
        healthcheck_path: None,
        healthcheck_port: None,
        healthcheck_status: None,
        routes: Vec::new(),
        aliases: Vec::new(),
        ip: None,
        running: false,
        created: None,
        depends_on: Vec::new(),
        compose_project: Some("proj".to_string()),
        compose_service: Some("cache".to_string()),
        always_on: false,
    };
    let resolved = app.resolve_dependencies(&[dep.clone(), other, cache]);
    assert_eq!(resolved.len(), 2);
    assert_eq!(resolved[0].id, "id-dep");
    assert_eq!(resolved[1].id, "id-cache");
    let missing = ManagedContainer {
        id: "id-missing".to_string(),
        name: "missing-1".to_string(),
        port: Some(8000),
        tcp_expose: Vec::new(),
        group: None,
        session_duration: Duration::from_secs(3600),
        startup_timeout: Duration::from_secs(180),
        healthcheck_path: None,
        healthcheck_port: None,
        healthcheck_status: None,
        routes: Vec::new(),
        aliases: Vec::new(),
        ip: None,
        running: false,
        created: None,
        depends_on: vec![Dependency {
            service: "nonexistent".to_string(),
            condition: "service_started".to_string(),
        }],
        compose_project: Some("proj".to_string()),
        compose_service: Some("app2".to_string()),
        always_on: false,
    };
    assert!(missing.resolve_dependencies(&[dep]).is_empty());
}

fn summary(labels: &[(&str, &str)]) -> ContainerSummary {
    let mut map = StringMap::new();
    for (k, v) in labels {
        map.insert(k.to_string(), v.to_string());
    }
    ContainerSummary {
        id: Some("abc123".to_string()),
        names: Some(vec!["/test-1".to_string(), "/other".to_string()]),
        labels: Some(map),
        ..Default::default()
    }
}

#[test]
fn only_enabled_containers_with_id_and_name_are_managed() {
    assert!(parse_container(&summary(&[(LABEL_ENABLE, "true")])).is_some());
    assert!(parse_container(&summary(&[(LABEL_ENABLE, "True")])).is_none());
    assert!(parse_container(&summary(&[])).is_none());
    assert!(parse_container(&ContainerSummary::default()).is_none());
    let mut c = summary(&[(LABEL_ENABLE, "true")]);
    c.id = None;
    assert!(parse_container(&c).is_none());
    let mut c = summary(&[(LABEL_ENABLE, "true")]);
    c.names = None;
    assert!(parse_container(&c).is_none());
    let mut c = summary(&[(LABEL_ENABLE, "true")]);
    c.names = Some(vec![]);
    assert!(parse_container(&c).is_none());
}

#[test]
fn a_bare_container_has_the_defaults() {
    let m = parse_container(&summary(&[(LABEL_ENABLE, "true")])).unwrap();
    assert_eq!(m.id, "abc123");
    assert_eq!(m.name, "/test-1");
    assert_eq!(m.port, None);
    assert_eq!(m.session_duration, Duration::from_secs(3600));
    assert_eq!(m.startup_timeout, Duration::from_secs(180));
    assert_eq!(m.group, None);
    assert_eq!(m.healthcheck_path, None);
    assert_eq!(m.healthcheck_port, None);
    assert_eq!(m.healthcheck_status, None);
    assert!(m.routes.is_empty() && m.aliases.is_empty() && m.tcp_expose.is_empty());
    assert!(m.depends_on.is_empty() && m.ip.is_none() && m.created.is_none());
    assert!(!m.running && !m.always_on);
}

#[test]
fn labels_are_read_into_their_fields() {
    let mut c = summary(&[
        (LABEL_ENABLE, "true"),
        (LABEL_GROUP, "g"),
        (LABEL_SESSION_DURATION, "1h 30m"),
        (LABEL_STARTUP_TIMEOUT, "500ms"),
        (LABEL_HEALTHCHECK_PATH, "/health"),
        (LABEL_HEALTHCHECK_PORT, "9090"),
        (LABEL_HEALTHCHECK_STATUS, "x,,"),
    ]);
    c.state = Some(ContainerState::Running);
    c.created = Some(1700000000);
    c.ports = Some(vec![3000, 4000]);
    let m = parse_container(&c).unwrap();
    assert_eq!(m.group.as_deref(), Some("g"));
    assert_eq!(m.session_duration, Duration::from_secs(5400));
    assert_eq!(m.startup_timeout, Duration::from_millis(500));
    assert_eq!(m.healthcheck_path.as_deref(), Some("/health"));
    assert_eq!(m.healthcheck_port, Some(9090));
    assert_eq!(m.healthcheck_status, None);
    assert_eq!(m.port, Some(9090));
    assert!(m.running);
    assert_eq!(m.created, Some(1700000000));
}

#[test]
fn port_comes_from_label_then_health_check_then_listed_ports() {
    let mut c = summary(&[
        (LABEL_ENABLE, "true"),
        ("dormant.port", "8080"),
        (LABEL_HEALTHCHECK_PORT, "9090"),
    ]);
    c.ports = Some(vec![3000]);
    assert_eq!(parse_container(&c).unwrap().port, Some(8080));
    let mut c = summary(&[(LABEL_ENABLE, "true"), ("dormant.port", "nope")]);
    c.ports = Some(vec![3000, 4000]);
    c.state = Some(ContainerState::Exited);
    let m = parse_container(&c).unwrap();
    assert_eq!(m.port, Some(3000));
    assert!(!m.running);
}

#[test]
fn listing_keeps_the_managed_ones() {
    let all = vec![
        summary(&[(LABEL_ENABLE, "true"), (LABEL_GROUP, "a")]),
        summary(&[]),
        summary(&[(LABEL_ENABLE, "true"), (LABEL_GROUP, "b")]),
    ];
    let managed = list_managed(&all);
    assert_eq!(managed.len(), 2);
    assert_eq!(managed[0].group.as_deref(), Some("a"));
    assert_eq!(managed[1].group.as_deref(), Some("b"));
}

#[test]
fn durations_are_read_by_humantime() {
    assert_eq!(read_duration("1h 30m"), Some(Duration::from_secs(5400)));
    assert_eq!(read_duration("250ms"), Some(Duration { secs: 0, nanos: 250_000_000 }));
    assert_eq!(read_duration("2days"), Some(Duration::from_secs(172_800)));
    assert_eq!(read_duration("0"), Some(Duration::from_secs(0)));
    assert_eq!(read_duration("7h"), Some(Duration::from_secs(25_200)));
    assert_eq!(read_duration("007s"), Some(Duration::from_secs(7)));
    assert_eq!(read_duration(""), None);
    assert_eq!(read_duration("10"), None);
    assert_eq!(read_duration("h"), None);
}

#[test]
fn durations_beyond_the_clock_are_not_read() {
    assert_eq!(read_duration("18446744073709551615s 1000ms"), None);
    assert_eq!(read_duration("18446744073709551615.5s 500msec"), None);
    assert_eq!(read_duration("18446744073709551555s 1m 1000000us"), None);
    assert_eq!(read_duration("584542046091y"), None);
    assert_eq!(read_duration("1.00000000000000000000h"), None);
    assert!(!readable("99999999999999999999999999999999999999999999s"));
    assert!(!readable("1 8 4 4 6 7 4 4 0 7 3 7 0 9 5 5 1 6 1 6s"));
    assert!(!readable("7100000000000 months"));
    assert!(readable("600000000000ns"));
    assert!(readable("18446744073709551615ns"));
    assert!(readable("1year 2months 3weeks 4days 5h 6m 7s 8ms 9us 10ns"));
}

#[test]
fn very_long_durations_are_read() {
    assert_eq!(
        read_duration("1 8 4 4 6 7 4 4 0 7 3 7 0 9 5 5 1 6 1 5s"),
        Some(Duration::from_secs(18_446_744_073_709_551_615))
    );
    assert_eq!(
        read_duration("10000000000000 seconds"),
        Some(Duration::from_secs(10_000_000_000_000))
    );
    assert_eq!(
        read_duration("5000000000000ns 1y"),
        Some(Duration::from_secs(31_562_600))
    );
    assert_eq!(read_duration("1.5h"), Some(Duration::from_secs(5400)));
    assert_eq!(
        read_duration("3000000000000000.3000000000000000h"),
        Some(Duration::from_secs(10_800_000_000_000_001_080))
    );
    assert_eq!(
        read_duration("584542046090.5y"),
        Some(Duration::from_secs(18446744073705562800))
    );
    assert_eq!(
        read_duration("584542046090.5y 1ms 1us 1ns"),
        Some(Duration { secs: 18446744073705562800, nanos: 1_001_001 })
    );
    assert_eq!(
        read_duration("18446744073709551615.5s 499msec"),
        Some(Duration { secs: 18_446_744_073_709_551_615, nanos: 999_000_000 })
    );
    assert_eq!(
        read_duration("18446744073709551555s1min"),
        Some(Duration::from_secs(18_446_744_073_709_551_615))
    );
    assert_eq!(
        read_duration("18446744073709551555s1m0s 999millis"),
        Some(Duration { secs: 18_446_744_073_709_551_615, nanos: 999_000_000 })
    );
    assert_eq!(
        read_duration("7000000000000 months"),
        Some(Duration::from_secs(18_410_112_000_000_000_000))
    );
}

#[test]
fn a_label_that_is_no_duration_counts_as_absent() {
    assert_eq!(
        parse_duration(Some("later"), DEFAULT_STARTUP_TIMEOUT),
        Duration::from_secs(180)
    );
    assert_eq!(parse_duration(None, DEFAULT_SESSION_DURATION), Duration::from_secs(3600));
    let d = Duration::from_secs(1);
    assert_eq!(duration_or(None, d), d);
    assert_eq!(duration_or(Some(Duration::from_secs(2)), d), Duration::from_secs(2));
    assert_eq!(Duration::from_millis(1500), Duration { secs: 1, nanos: 500_000_000 });
    assert_eq!(Duration::from_millis(1500).as_nanos(), 1_500_000_000);
    assert_eq!(Duration::from_secs(9).as_secs(), 9);
}

#[test]
fn routes_with_port_zero_or_no_number_keep_the_whole_text() {
    let r = parse_route("a:0").unwrap();
    assert_eq!((r.host.as_str(), r.port), ("a:0", None));
    let r = parse_route("a:b:80").unwrap();
    assert_eq!((r.host.as_str(), r.port), ("a:b", Some(80)));
    let r = parse_route(":80").unwrap();
    assert_eq!((r.host.as_str(), r.port), ("", Some(80)));
}

#[test]
fn dependencies_have_a_condition() {
    let d = parse_depends_on("db, cache:service_healthy ,:x,q:c:true:more");
    assert_eq!(d.len(), 3);
    assert_eq!((d[0].service.as_str(), d[0].condition.as_str()), ("db", "service_started"));
    assert_eq!((d[1].service.as_str(), d[1].condition.as_str()), ("cache", "service_healthy"));
    assert_eq!((d[2].service.as_str(), d[2].condition.as_str()), ("q", "c"));
}

#[test]
fn status_codes_that_are_no_numbers_are_skipped() {
    assert_eq!(parse_statuses("200, 204,x,70000"), vec![200, 204]);
    assert!(parse_statuses("").is_empty());
}

#[test]
fn target_address_of_a_container() {
    let mut m = parse_container(&summary(&[(LABEL_ENABLE, "true")])).unwrap();
    assert_eq!(m.target_addr(), "abc123");
    m.port = Some(80);
    assert_eq!(m.target_addr(), "abc123:80");
    m.ip = Some("10.0.0.2".to_string());
    assert_eq!(m.target_addr(), "10.0.0.2:80");
    m.port = None;
    assert_eq!(m.target_addr(), "10.0.0.2");
    assert!(!m.is_running());
}
