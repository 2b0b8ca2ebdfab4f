#![allow(non_snake_case)]

use dormant::config::StaticRouteEntry;
use dormant::container::{ManagedContainer, Route, TcpExpose};
use dormant::router::{RouteEntry, RouteResult, Router, StaticConflict};
use dormant::statics::StaticTarget;
use dormant::time::Duration;

fn make_container(name: &str, group: Option<&str>) -> ManagedContainer {
    ManagedContainer {
        id: format!("id-{name}"),
        name: name.to_string(),
        port: Some(8000),
        tcp_expose: Vec::new(),
        group: group.map(|s| s.to_string()),
        session_duration: Duration::from_secs(3600),
        startup_timeout: Duration::from_secs(180),
        healthcheck_path: None,
        healthcheck_port: None,
        healthcheck_status: None,
        routes: Vec::new(),
        aliases: Vec::new(),
        ip: Some("172.20.0.99".to_string()),
        running: false,
        created: None,
        depends_on: Vec::new(),
        compose_project: None,
        compose_service: None,
        always_on: false,
    }
}

fn route(host: &str) -> Route {
    Route {
        host: host.to_string(),
        port: None,
    }
}

fn route_port(host: &str, port: u16) -> Route {
    Route {
        host: host.to_string(),
        port: Some(port),
    }
}

#[test]
fn test_resolve_exact() {
    let mut router = Router::new();
    router.update(vec![make_container(
            "/federation-router-federation-router.sizebook-1",
            None,
        )]);

    let c = router.resolve("federation-router-federation-router.sizebook");
    assert!(c.is_some());
}

#[test]
fn test_name_with_trailing_digits_kept() {
    let mut router = Router::new();
    router.update(vec![make_container("/dormant-test-web3", None)]);

    assert!(router.resolve("dormant-test-web3").is_some());
    assert!(router.resolve("dormant-test-web").is_none());
}

#[test]
fn test_replica_number_stripped() {
    let mut router = Router::new();
    router.update(vec![
            make_container("/service-1", None),
            make_container("/myapp-2", None),
        ]);

    assert!(router.resolve("service").is_some());
    assert!(router.resolve("myapp").is_some());
}

#[test]
fn test_resolve_host_label() {
    let mut router = Router::new();
    let mut c = make_container("/app-1", None);
    c.routes = vec![route("app.example.com")];
    router.update(vec![c]);

    assert!(router.resolve("app.example.com").is_some());
    assert!(router.resolve("app").is_some());
}

#[test]
fn test_resolve_multiple_host_labels() {
    let mut router = Router::new();
    let mut c = make_container("/app-1", None);
    c.routes = vec![route("app.example.com"), route("api.example.com")];
    router.update(vec![c]);

    assert!(router.resolve("app.example.com").is_some());
    assert!(router.resolve("api.example.com").is_some());
}

#[test]
fn test_alias_not_used_for_http_resolution() {
    let mut router = Router::new();
    let mut c = make_container("/app-1", None);
    c.routes = vec![route("app.example.com")];
    c.aliases = vec!["myredis.local".to_string()];
    router.update(vec![c]);

    assert!(router.resolve("app.example.com").is_some());
    assert!(router.resolve("myredis.local").is_none());
}

#[test]
fn test_resolve_route_port() {
    let mut router = Router::new();
    let mut c = make_container("/app-1", None);
    c.routes = vec![route_port("app.example.com", 8080)];
    router.update(vec![c]);

    let (c, port) = router.resolve("app.example.com").unwrap();
    assert_eq!(c.id, "id-/app-1");
    assert_eq!(port, 8080);
}

#[test]
fn test_resolve_route_no_port_falls_back_to_default() {
    let mut router = Router::new();
    let mut c = make_container("/app-1", None);
    c.port = Some(9000);
    c.routes = vec![route("app.example.com")];
    router.update(vec![c]);

    let (_, port) = router.resolve("app.example.com").unwrap();
    assert_eq!(port, 9000);
}

#[test]
fn test_resolve_multiple_routes_same_container_different_ports() {
    let mut router = Router::new();
    let mut c = make_container("/app-1", None);
    c.port = Some(9000);
    c.routes = vec![route_port("api.example.com", 8081), route_port("web.example.com", 8080)];
    router.update(vec![c]);

    let (_, port_a) = router.resolve("api.example.com").unwrap();
    let (_, port_w) = router.resolve("web.example.com").unwrap();
    assert_eq!(port_a, 8081);
    assert_eq!(port_w, 8080);
}

#[test]
fn test_conflict_running_wins() {
    let mut router = Router::new();
    let mut stopped = make_container("/old-1", None);
    let mut running = make_container("/new-1", None);
    stopped.running = false;
    running.running = true;
    stopped.routes = vec![route("app.example.com")];
    running.routes = vec![route("app.example.com")];
    router.update(vec![stopped, running]);

    let (c, _) = router.resolve("app.example.com").unwrap();
    assert!(c.is_running());
    assert_eq!(c.id, "id-/new-1");
}

#[test]
fn test_conflict_stopped_loses() {
    let mut router = Router::new();
    let mut running = make_container("/old-1", None);
    let mut stopped = make_container("/new-1", None);
    running.running = true;
    stopped.running = false;
    running.routes = vec![route("app.example.com")];
    stopped.routes = vec![route("app.example.com")];
    router.update(vec![running, stopped]);

    let (c, _) = router.resolve("app.example.com").unwrap();
    assert!(c.is_running());
    assert_eq!(c.id, "id-/old-1");
}

#[test]
fn test_conflict_both_stopped() {
    let mut router = Router::new();
    let mut first = make_container("/old-1", None);
    let mut second = make_container("/new-1", None);
    first.running = false;
    second.running = false;
    first.created = Some(1000);
    second.created = Some(2000);
    first.routes = vec![route("app.example.com")];
    second.routes = vec![route("app.example.com")];
    router.update(vec![first, second]);

    let (c, _) = router.resolve("app.example.com").unwrap();
    assert!(!c.is_running());
    assert_eq!(c.id, "id-/new-1");
}

#[test]
fn test_conflict_both_nonrunning_newest_wins() {
    let mut router = Router::new();
    let mut old = make_container("/old-1", None);
    let mut new = make_container("/new-1", None);
    old.running = false;
    new.running = false;
    old.created = Some(1000);
    new.created = Some(2000);
    old.routes = vec![route("app.example.com")];
    new.routes = vec![route("app.example.com")];
    router.update(vec![new, old]);

    let (c, _) = router.resolve("app.example.com").unwrap();
    assert!(!c.is_running());
    assert_eq!(c.id, "id-/new-1");
}

#[test]
fn test_conflict_both_running_newest_wins() {
    let mut router = Router::new();
    let mut old = make_container("/old-1", None);
    let mut new = make_container("/new-1", None);
    old.running = true;
    new.running = true;
    old.created = Some(1000);
    new.created = Some(2000);
    old.routes = vec![route("app.example.com")];
    new.routes = vec![route("app.example.com")];
    router.update(vec![old, new]);

    let (c, _) = router.resolve("app.example.com").unwrap();
    assert!(c.is_running());
    assert_eq!(c.id, "id-/new-1");
}

#[test]
fn test_conflict_running_wins_regardless_of_created() {
    let mut router = Router::new();
    let mut running_old = make_container("/old-1", None);
    let mut stopped_new = make_container("/new-1", None);
    running_old.running = true;
    stopped_new.running = false;
    running_old.created = Some(1000);
    stopped_new.created = Some(2000);
    running_old.routes = vec![route("app.example.com")];
    stopped_new.routes = vec![route("app.example.com")];
    router.update(vec![running_old, stopped_new]);

    let (c, _) = router.resolve("app.example.com").unwrap();
    assert!(c.is_running());
    assert_eq!(c.id, "id-/old-1");
}

#[test]
fn test_conflict_running_new_overwrites_stopped() {
    let mut router = Router::new();
    let mut stopped_old = make_container("/old-1", None);
    let mut running_new = make_container("/new-1", None);
    stopped_old.running = false;
    running_new.running = true;
    stopped_old.created = Some(2000);
    running_new.created = Some(1000);
    stopped_old.routes = vec![route("app.example.com")];
    running_new.routes = vec![route("app.example.com")];
    router.update(vec![stopped_old, running_new]);

    let (c, _) = router.resolve("app.example.com").unwrap();
    assert!(c.is_running());
    assert_eq!(c.id, "id-/new-1");
}

#[test]
fn test_resolve_prefers_running() {
    let mut router = Router::new();
    let mut stopped = make_container("/old-1", None);
    let mut running = make_container("/new-1", None);
    stopped.running = false;
    running.running = true;
    stopped.created = Some(3000);
    running.created = Some(1000);
    stopped.routes = vec![route("app.example.com")];
    running.routes = vec![route("app.example.com")];
    router.update(vec![stopped, running]);

    let (c, _) = router.resolve("app.example.com").unwrap();
    assert!(c.is_running());
    assert_eq!(c.id, "id-/new-1");
}

#[test]
fn test_resolve_prefers_newest_when_all_stopped() {
    let mut router = Router::new();
    let mut old = make_container("/old-1", None);
    let mut new = make_container("/new-1", None);
    old.running = false;
    new.running = false;
    old.created = Some(1000);
    new.created = Some(2000);
    old.routes = vec![route("app.example.com")];
    new.routes = vec![route("app.example.com")];
    router.update(vec![old, new]);

    let (c, _) = router.resolve("app.example.com").unwrap();
    assert!(!c.is_running());
    assert_eq!(c.id, "id-/new-1");
}

#[test]
fn test_resolve_prefers_newest_when_all_running() {
    let mut router = Router::new();
    let mut old = make_container("/old-1", None);
    let mut new = make_container("/new-1", None);
    old.running = true;
    new.running = true;
    old.created = Some(1000);
    new.created = Some(2000);
    old.routes = vec![route("app.example.com")];
    new.routes = vec![route("app.example.com")];
    router.update(vec![old, new]);

    let (c, _) = router.resolve("app.example.com").unwrap();
    assert!(c.is_running());
    assert_eq!(c.id, "id-/new-1");
}

#[test]
fn test_containers_unique() {
    let mut router = Router::new();
    let mut c = make_container("/app-1", None);
    c.routes = vec![route("app.example.com"), route("api.example.com")];
    router.update(vec![c]);

    let all = router.containers();
    assert_eq!(all.len(), 1);
    assert_eq!(all[0].id, "id-/app-1");
}

#[test]
fn test_routing_G3_group_name_not_resolvable() {
    let mut router = Router::new();
    router.update(vec![
            make_container("/router-1", Some("federation-router-sizebook")),
            make_container("/account-1", Some("federation-router-sizebook")),
        ]);

    assert!(router.resolve("federation-router-sizebook").is_none());

    let group = router.group_containers("federation-router-sizebook");
    assert_eq!(group.len(), 2);
}

#[test]
fn test_resolve_tcp_port() {
    let mut router = Router::new();
    let mut c = make_container("/app-1", None);
    c.tcp_expose = vec![TcpExpose {
        listen_port: 6334,
        container_port: 9000,
    }];
    router.update(vec![c]);

    let c = router.resolve_tcp(6334).unwrap();
    assert_eq!(c.id, "id-/app-1");
    assert!(router.resolve_tcp(9999).is_none());
}

#[test]
fn test_tcp_listen_ports() {
    let mut router = Router::new();
    let mut a = make_container("/a-1", None);
    a.tcp_expose = vec![TcpExpose {
        listen_port: 6334,
        container_port: 6334,
    }];
    let mut b = make_container("/b-1", None);
    b.tcp_expose = vec![TcpExpose {
        listen_port: 7000,
        container_port: 8000,
    }];
    router.update(vec![a, b]);

    let mut ports = router.tcp_listen_ports();
    ports.sort_unstable();
    assert_eq!(ports, vec![6334, 7000]);
}

#[test]
fn test_resolve_tcp_conflict_running_wins() {
    let mut router = Router::new();
    let mut stopped = make_container("/old-1", None);
    let mut running = make_container("/new-1", None);
    stopped.running = false;
    running.running = true;
    stopped.created = Some(3000);
    running.created = Some(1000);
    stopped.tcp_expose = vec![TcpExpose {
        listen_port: 6334,
        container_port: 6334,
    }];
    running.tcp_expose = vec![TcpExpose {
        listen_port: 6334,
        container_port: 6334,
    }];
    router.update(vec![stopped, running]);

    let c = router.resolve_tcp(6334).unwrap();
    assert!(c.is_running());
    assert_eq!(c.id, "id-/new-1");
}

#[test]
fn test_resolve_tcp_all_stopped_newest_wins() {
    let mut router = Router::new();
    let mut old = make_container("/old-1", None);
    let mut new = make_container("/new-1", None);
    old.running = false;
    new.running = false;
    old.created = Some(1000);
    new.created = Some(2000);
    old.tcp_expose = vec![TcpExpose {
        listen_port: 6334,
        container_port: 6334,
    }];
    new.tcp_expose = vec![TcpExpose {
        listen_port: 6334,
        container_port: 6334,
    }];
    router.update(vec![old, new]);

    let c = router.resolve_tcp(6334).unwrap();
    assert!(!c.is_running());
    assert_eq!(c.id, "id-/new-1");
}


fn sre(pattern: &str, ip: &str, port: u16) -> StaticRouteEntry {
    StaticRouteEntry {
        pattern: pattern.to_string(),
        ip: ip.to_string(),
        port,
    }
}

#[test]
fn test_static_wildcard_matches_any_depth() {
    let mut router = Router::new();
    router.set_static_routes(&[sre("*.example.com", "203.0.113.10", 8080)]);

    let r = router.resolve_with_static("foo.example.com").unwrap();
    let t = r.static_target().unwrap();
    assert_eq!(t.ip, "203.0.113.10");
    assert_eq!(t.port, 8080);

    let r = router.resolve_with_static("foo.bar.example.com").unwrap();
    assert!(r.static_target().is_some());

    let r = router.resolve_with_static("a.b.c.d.example.com")
        .unwrap();
    assert!(r.static_target().is_some());

    assert!(router.resolve_with_static("example.com").is_none());
    assert!(router.resolve_with_static("other.org").is_none());
    assert!(router.resolve_with_static("example.com.evil.org")
        .is_none());
}

#[test]
fn test_static_exact_beats_wildcard() {
    let mut router = Router::new();
    router.set_static_routes(&[
            sre("api.example.com", "203.0.113.11", 8443),
            sre("*.example.com", "203.0.113.10", 8080),
        ]);

    let r = router.resolve_with_static("api.example.com").unwrap();
    let t = r.static_target().unwrap();
    assert_eq!(t.ip, "203.0.113.11");
    assert_eq!(t.port, 8443);

    let r = router.resolve_with_static("other.example.com").unwrap();
    let t = r.static_target().unwrap();
    assert_eq!(t.ip, "203.0.113.10");
    assert_eq!(t.port, 8080);
}

#[test]
fn test_static_wildcard_longest_suffix_wins() {
    let mut router = Router::new();
    router.set_static_routes(&[
            sre("*.example.com", "203.0.113.10", 8080),
            sre("*.api.example.com", "203.0.113.20", 9000),
        ]);

    let r = router.resolve_with_static("x.api.example.com")
        .unwrap();
    let t = r.static_target().unwrap();
    assert_eq!(t.ip, "203.0.113.20");
    assert_eq!(t.port, 9000);

    let r = router.resolve_with_static("x.example.com").unwrap();
    let t = r.static_target().unwrap();
    assert_eq!(t.ip, "203.0.113.10");
    assert_eq!(t.port, 8080);
}

#[test]
fn test_static_conflict_dynamic_exact_wins() {
    let mut router = Router::new();
    let mut c = make_container("/app-1", None);
    c.routes = vec![route("app.example.com")];
    router.update(vec![c]);
    router.set_static_routes(&[sre("app.example.com", "203.0.113.11", 8443)]);

    let r = router.resolve_with_static("app.example.com").unwrap();
    let (c, port) = match r {
        RouteResult::Dynamic(c, p) => (*c, p),
        RouteResult::Static(_) => panic!("expected dynamic"),
    };
    assert_eq!(c.id, "id-/app-1");
    assert_eq!(port, 8000);
}

#[test]
fn test_static_conflict_dynamic_prefix_wins() {
    let mut router = Router::new();
    let mut c = make_container("/app-1", None);
    c.routes = vec![route("bar.example.com")];
    router.update(vec![c]);
    router.set_static_routes(&[sre("*.example.com", "203.0.113.10", 8080)]);

    let r = router.resolve_with_static("foo.bar.example.com")
        .unwrap();
    let c = r.container().unwrap();
    assert_eq!(c.id, "id-/app-1");

    let r = router.resolve_with_static("foo.other.example.com")
        .unwrap();
    assert!(r.static_target().is_some());
}

#[test]
fn test_static_exact_resolves() {
    let mut router = Router::new();
    router.set_static_routes(&[sre("api.example.com", "203.0.113.11", 8443)]);

    let r = router.resolve_with_static("api.example.com").unwrap();
    let t = r.static_target().unwrap();
    assert_eq!(t.ip, "203.0.113.11");
    assert_eq!(t.port, 8443);

    assert!(router.resolve_with_static("other.example.com").is_none());
    assert!(router.resolve("api.example.com").is_none());
}

#[test]
fn test_static_invalid_patterns_skipped() {
    let mut router = Router::new();
    router.set_static_routes(&[
            sre("a*b.example.com", "203.0.113.1", 80),
            sre("*.", "203.0.113.2", 80),
            sre("ok.example.com", "203.0.113.3", 80),
        ]);

    let routes = router.static_routes();
    assert_eq!(routes.exact.len(), 1);
    assert!(routes.exact.contains_key("ok.example.com"));
    assert!(routes.wildcard.is_empty());

    let r = router.resolve_with_static("ok.example.com").unwrap();
    let t = r.static_target().unwrap();
    assert_eq!(t.ip, "203.0.113.3");
}

#[test]
fn replica_number_needs_digits_after_the_dash() {
    let mut router = Router::new();
    router.update(vec![
        make_container("/a-", None),
        make_container("//b-x1", None),
        make_container("/c-12", None),
        make_container("/d-1-2", None),
    ]);
    assert!(router.resolve("a-").is_some());
    assert!(router.resolve("b-x1").is_some());
    assert!(router.resolve("c").is_some());
    assert!(router.resolve("d-1").is_some());
    assert!(router.resolve("d").is_none());
    assert_eq!(router.len(), 4);
}

#[test]
fn update_replaces_what_was_there() {
    let mut router = Router::new();
    router.update(vec![make_container("/old-1", None)]);
    router.update(vec![make_container("/new-1", None)]);
    assert!(router.resolve("old").is_none());
    assert!(router.resolve("new").is_some());
    assert_eq!(router.containers().len(), 1);
}

#[test]
fn same_id_is_entered_once_per_host_with_its_first_port() {
    let mut router = Router::new();
    let mut c = make_container("/app-1", None);
    c.routes = vec![route_port("x.example.com", 1), route_port("x.example.com", 2)];
    router.update(vec![c]);
    let (_, port) = router.resolve("x.example.com").unwrap();
    assert_eq!(port, 1);
    assert_eq!(router.containers().len(), 1);
}

#[test]
fn host_below_another_resolves_from_above() {
    let mut router = Router::new();
    let mut c = make_container("/app-1", None);
    c.routes = vec![route("bar.localhost")];
    router.update(vec![c]);
    let (c, port) = router.resolve("foo.bar.localhost").unwrap();
    assert_eq!(c.id, "id-/app-1");
    assert_eq!(port, 8000);
    assert!(router.resolve("bar.localhost.example").is_none());
    assert!(router.resolve("").is_none());
}

#[test]
fn port_zero_without_any_port() {
    let mut router = Router::new();
    let mut c = make_container("/app-1", None);
    c.port = None;
    router.update(vec![c]);
    let (_, port) = router.resolve("app").unwrap();
    assert_eq!(port, 0);
}

#[test]
fn unknown_creation_time_loses_to_any_known_one() {
    let mut router = Router::new();
    let mut a = make_container("/a-1", None);
    let mut b = make_container("/b-1", None);
    a.created = Some(-5);
    a.routes = vec![route("h")];
    b.created = None;
    b.routes = vec![route("h")];
    router.update(vec![a, b]);
    assert_eq!(router.resolve("h").unwrap().0.id, "id-/a-1");
}

#[test]
fn last_of_equals_is_chosen() {
    let mut router = Router::new();
    let mut a = make_container("/a-1", None);
    let mut b = make_container("/b-1", None);
    a.created = Some(7);
    b.created = Some(7);
    a.routes = vec![route("h")];
    b.routes = vec![route("h")];
    router.update(vec![a, b]);
    assert_eq!(router.resolve("h").unwrap().0.id, "id-/b-1");
}

#[test]
fn group_listing_has_each_member_once() {
    let mut router = Router::new();
    let mut a = make_container("/a-1", Some("g"));
    a.routes = vec![route("a.example.com"), route("b.example.com")];
    router.update(vec![a, make_container("/b-1", Some("g")), make_container("/c-1", None)]);
    let mut ids: Vec<String> = router.group_containers("g").iter().map(|c| c.id.clone()).collect();
    ids.sort();
    assert_eq!(ids, vec!["id-/a-1", "id-/b-1"]);
    assert!(router.group_containers("other").is_empty());
}

#[test]
fn wildcard_needs_the_dot() {
    let mut router = Router::new();
    router.set_static_routes(&[sre("*.example.com", "203.0.113.10", 8080)]);
    assert!(router.resolve_with_static("myexample.com").is_none());
    assert!(router.resolve_with_static("example.com").is_none());
    assert!(router.resolve_with_static(".example.com").is_some());
    assert!(router.resolve_with_static("my.example.com").is_some());
}

#[test]
fn later_exact_static_route_counts() {
    let mut router = Router::new();
    router.set_static_routes(&[
        sre("a.example.com", "203.0.113.1", 1),
        sre("a.example.com", "203.0.113.2", 2),
    ]);
    let r = router.resolve_with_static("a.example.com").unwrap();
    assert_eq!(r.static_target().unwrap().port, 2);
    assert_eq!(router.static_routes().exact.len(), 1);
}

#[test]
fn wildcards_of_one_length_keep_their_order() {
    let mut router = Router::new();
    router.set_static_routes(&[
        sre("*.a.org", "203.0.113.1", 1),
        sre("*.example.com", "203.0.113.2", 2),
        sre("*.b.org", "203.0.113.3", 3),
        sre("*.*.org", "203.0.113.4", 4),
    ]);
    let suffixes: Vec<&str> =
        router.static_routes().wildcard.iter().map(|(s, _)| s.as_str()).collect();
    assert_eq!(suffixes, vec![".example.com", ".a.org", ".b.org"]);
}

#[test]
fn conflicts_of_static_routes_are_reported() {
    let mut router = Router::new();
    let mut c = make_container("/app-1", None);
    c.routes = vec![route("app.example.com")];
    router.update(vec![c]);
    router.set_static_routes(&[
        sre("app.example.com", "203.0.113.1", 1),
        sre("other.example.com", "203.0.113.2", 2),
        sre("*.example.com", "203.0.113.3", 3),
        sre("*.example.org", "203.0.113.4", 4),
    ]);
    let conflicts = router.static_conflicts();
    assert_eq!(conflicts.len(), 2);
    assert!(matches!(&conflicts[0], StaticConflict::Exact(h) if h == "app.example.com"));
    assert!(matches!(
        &conflicts[1],
        StaticConflict::Wildcard(s, h) if s == ".example.com" && h == "app.example.com"
    ));
}

#[test]
fn route_results_give_their_parts() {
    let c = make_container("/app-1", None);
    let dynamic = RouteResult::Dynamic(Box::new(c.clone()), 80);
    assert_eq!(dynamic.container().unwrap().id, "id-/app-1");
    assert!(dynamic.static_target().is_none());
    let fixed = RouteResult::Static(StaticTarget { ip: "203.0.113.1".to_string(), port: 9 });
    assert!(fixed.container().is_none());
    assert_eq!(fixed.clone().static_target().unwrap().ip, "203.0.113.1");
    let mut entry = RouteEntry { container: c, port: None };
    assert!(!entry.is_running());
    entry.container.running = true;
    assert!(entry.clone().is_running());
}

#[test]
fn a_route_names_the_port_of_its_host() {
    let port_of = |router: &Router, host: &str| router.resolve(host).unwrap().1;
    let with_port = |host: &str, port: Option<u16>| Route { host: host.to_string(), port };
    let mut router = Router::new();
    let mut c = make_container("/app-1", None);
    c.port = Some(80);
    c.routes = vec![with_port("app", Some(8081))];
    router.update(vec![c.clone()]);
    assert_eq!(port_of(&router, "app"), 8081);
    assert!(matches!(
        router.resolve_with_static("app"),
        Some(RouteResult::Dynamic(found, 8081)) if found.id == "id-/app-1"
    ));
    c.routes = vec![
        with_port("app", None),
        with_port("app", Some(8081)),
        with_port("web", Some(9000)),
        with_port("web", Some(9001)),
        with_port("api", None),
    ];
    router.update(vec![c]);
    assert_eq!(port_of(&router, "app"), 80);
    assert_eq!(port_of(&router, "web"), 9000);
    assert_eq!(port_of(&router, "api"), 80);
}
