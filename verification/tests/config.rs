use dormant::config::{
    parse_static_route, parse_static_routes, Args, Config, StaticRouteEntry,
};

#[test]
fn test_default_config() {
    let cfg = Config::default();
    assert_eq!(cfg.listen, "0.0.0.0:80");
    assert_eq!(cfg.docker_socket, "/var/run/docker.sock");
}

#[test]
fn default_config_checks_every_half_minute_without_static_routes() {
    let cfg = Config::default();
    assert_eq!(cfg.idle_check_interval_secs, 30);
    assert!(cfg.static_routes.is_empty());
}

#[test]
fn test_from_args() {
    let args = Args {
        listen: "0.0.0.0:8080".to_string(),
        docker_socket: "/tmp/docker.sock".to_string(),
        idle_check_interval_secs: 10,
        self_network: String::new(),
        static_routes: String::new(),
    };
    let cfg = Config::from_args(&args);
    assert_eq!(cfg.listen, "0.0.0.0:8080");
    assert_eq!(cfg.docker_socket, "/tmp/docker.sock");
    assert_eq!(cfg.idle_check_interval_secs, 10);
    assert!(cfg.static_routes.is_empty());
}

#[test]
fn test_from_args_static_routes() {
    let args = Args {
        listen: "0.0.0.0:8080".to_string(),
        docker_socket: "/tmp/docker.sock".to_string(),
        idle_check_interval_secs: 10,
        self_network: String::new(),
        static_routes: "*.example.com=203.0.113.10:8080".to_string(),
    };
    let cfg = Config::from_args(&args);
    assert_eq!(cfg.static_routes.len(), 1);
    assert_eq!(cfg.static_routes[0].pattern, "*.example.com");
    assert_eq!(cfg.static_routes[0].ip, "203.0.113.10");
    assert_eq!(cfg.static_routes[0].port, 8080);
}

#[test]
fn test_parse_static_route() {
    assert_eq!(
        parse_static_route("api.example.com=203.0.113.11:8443"),
        Some(StaticRouteEntry {
            pattern: "api.example.com".to_string(),
            ip: "203.0.113.11".to_string(),
            port: 8443,
        })
    );
    assert_eq!(
        parse_static_route("*.example.com=203.0.113.10:8080"),
        Some(StaticRouteEntry {
            pattern: "*.example.com".to_string(),
            ip: "203.0.113.10".to_string(),
            port: 8080,
        })
    );
    assert_eq!(
        parse_static_route(" *.example.com = 203.0.113.10 : 8080 "),
        Some(StaticRouteEntry {
            pattern: "*.example.com".to_string(),
            ip: "203.0.113.10".to_string(),
            port: 8080,
        })
    );
    assert_eq!(parse_static_route(""), None);
    assert_eq!(parse_static_route("api.example.com"), None);
    assert_eq!(parse_static_route("=1.2.3.4:80"), None);
    assert_eq!(parse_static_route("api.example.com=1.2.3.4"), None);
    assert_eq!(parse_static_route("api.example.com=1.2.3.4:0"), None);
    assert_eq!(parse_static_route("api.example.com=1.2.3.4:99999"), None);
}

#[test]
fn static_route_parts_must_be_there() {
    assert_eq!(parse_static_route("a= :80"), None);
    assert_eq!(parse_static_route("a=1.2.3.4:"), None);
    assert_eq!(parse_static_route("a=1.2.3.4:x"), None);
    assert_eq!(
        parse_static_route("a=b=c:+80"),
        Some(StaticRouteEntry { pattern: "a".to_string(), ip: "b=c".to_string(), port: 80 })
    );
}

#[test]
fn test_parse_static_routes_comma_and_newline() {
    let routes = parse_static_routes(
        "*.example.com=203.0.113.10:8080,api.example.com=203.0.113.11:8443\n\
         web.example.com=203.0.113.12:80",
    );
    assert_eq!(routes.len(), 3);
    assert_eq!(routes[0].pattern, "*.example.com");
    assert_eq!(routes[0].ip, "203.0.113.10");
    assert_eq!(routes[0].port, 8080);
    assert_eq!(routes[1].pattern, "api.example.com");
    assert_eq!(routes[1].port, 8443);
    assert_eq!(routes[2].pattern, "web.example.com");
    assert_eq!(routes[2].port, 80);
}

#[test]
fn test_parse_static_routes_empty_and_invalid_skipped() {
    assert_eq!(parse_static_routes(""), Vec::<StaticRouteEntry>::new());
    assert_eq!(parse_static_routes("   \n , "), Vec::<StaticRouteEntry>::new());
    let routes = parse_static_routes("bad,ok.example.com=1.2.3.4:80\nalso_bad");
    assert_eq!(routes.len(), 1);
    assert_eq!(routes[0].pattern, "ok.example.com");
    assert_eq!(routes[0].ip, "1.2.3.4");
    assert_eq!(routes[0].port, 80);
}
