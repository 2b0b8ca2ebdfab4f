//! Settings, label names and the static route list.

use crate::number;
use crate::sequences;
use crate::text;
use vstd::prelude::*;

verus! {

/// Containers with this label set to `true` are managed.
pub const LABEL_ENABLE: &'static str = "dormant.enable";

/// The group that a container is started with.
pub const LABEL_GROUP: &'static str = "dormant.group";

/// The port that requests are forwarded to.
pub const LABEL_PORT: &'static str = "dormant.port";

/// How long a container may be idle before it is stopped.
pub const LABEL_SESSION_DURATION: &'static str = "dormant.session-duration";

/// How long a container may take to start.
pub const LABEL_STARTUP_TIMEOUT: &'static str = "dormant.startup.timeout";

/// The path that a health check asks for.
pub const LABEL_HEALTHCHECK_PATH: &'static str = "dormant.healthcheck.path";

/// The port that a health check asks on.
pub const LABEL_HEALTHCHECK_PORT: &'static str = "dormant.healthcheck.port";

/// The status codes that a health check accepts.
pub const LABEL_HEALTHCHECK_STATUS: &'static str = "dormant.healthcheck.status";

/// The hosts that a container answers for, as a list of `host` or `host:port`.
pub const LABEL_HOST: &'static str = "dormant.host";

/// Host names that become network aliases of the proxy and are not routed over HTTP.
pub const LABEL_ALIAS: &'static str = "dormant.alias";

/// The forwarded TCP ports, as a list of `PORT` or `LISTEN_PORT:CONTAINER_PORT`.
pub const LABEL_TCP: &'static str = "dormant.tcp";

/// Containers with this label set to `true` are never stopped for being idle.
pub const LABEL_ALWAYS_ON: &'static str = "dormant.always-on";

/// The services that a compose service waits for.
pub const LABEL_COMPOSE_DEPENDS_ON: &'static str = "com.docker.compose.depends_on";

/// The compose project of a container.
pub const LABEL_COMPOSE_PROJECT: &'static str = "com.docker.compose.project";

/// The compose service of a container.
pub const LABEL_COMPOSE_SERVICE: &'static str = "com.docker.compose.service";

/// How far dependencies are followed; a cycle ends here.
pub const MAX_DEPENDENCY_DEPTH: usize = 10;

/// The session duration of a container without the label.
pub const DEFAULT_SESSION_DURATION: &'static str = "1h";

/// The startup timeout of a container without the label.
pub const DEFAULT_STARTUP_TIMEOUT: &'static str = "3m";

/// One static route: requests for hosts that match `pattern` go to `ip:port`.
#[derive(Debug, PartialEq, Eq)]
pub struct StaticRouteEntry {
    /// A host name, or `*.` and a domain for every host below that domain.
    pub pattern: String,
    /// The address that requests go to. Nothing is started or stopped there.
    pub ip: String,
    /// The port that requests go to.
    pub port: u16,
}

/// The mathematical value of a `StaticRouteEntry`.
#[verifier::ext_equal]
pub struct StaticRouteView {
    pub pattern: Seq<char>,
    pub ip: Seq<char>,
    pub port: u16,
}

impl View for StaticRouteEntry {
    type V = StaticRouteView;

    open spec fn view(&self) -> StaticRouteView {
        StaticRouteView { pattern: self.pattern@, ip: self.ip@, port: self.port }
    }
}

impl DeepView for StaticRouteEntry {
    type V = StaticRouteView;

    open spec fn deep_view(&self) -> StaticRouteView {
        self@
    }
}

impl Clone for StaticRouteEntry {
    fn clone(&self) -> (r: Self)
        ensures
            r@ == self@,
    {
        StaticRouteEntry { pattern: self.pattern.clone(), ip: self.ip.clone(), port: self.port }
    }
}

/// The static route that `s` describes as `PATTERN=IP:PORT`, spaces around each part allowed.
pub open spec fn static_route_of(s: Seq<char>) -> Option<StaticRouteView> {
    match text::cut_first(s, '=') {
        None => None,
        Some((left, target)) => {
            let pattern = text::trimmed(left);
            match text::cut_last(target, ':') {
                None => None,
                Some((left, right)) => {
                    let ip = text::trimmed(left);
                    match number::u16_of(text::trimmed(right)) {
                        Some(port) if port != 0 && pattern.len() > 0 && ip.len() > 0 => Some(
                            StaticRouteView { pattern, ip, port },
                        ),
                        _ => None,
                    }
                },
            }
        },
    }
}

/// The static route that an element of the list describes; empty elements describe none.
pub open spec fn static_route_element(s: Seq<char>) -> Option<StaticRouteView> {
    if text::trimmed(s).len() == 0 {
        None
    } else {
        static_route_of(text::trimmed(s))
    }
}

/// The separators of the static route list: comma and line feed.
pub open spec fn static_route_separators() -> Seq<char> {
    seq![',', '\n']
}

/// The static routes of a list whose elements are separated by commas and line feeds. Elements
/// that describe no route are skipped.
pub open spec fn static_routes_of(s: Seq<char>) -> Seq<StaticRouteView> {
    text::pieces(s, static_route_separators()).filter_map(
        |piece: Seq<char>| static_route_element(piece),
    )
}

/// Reads one static route `PATTERN=IP:PORT`. The port follows the last `:`, so an IPv6 address is
/// not understood.
pub fn parse_static_route(s: &str) -> (r: Option<StaticRouteEntry>)
    ensures
        r.deep_view() == static_route_of(s@),
{
    let (left, target): (&str, &str) = match text::split_once(s, '=') {
        Some(parts) => parts,
        None => {
            return None;
        },
    };
    let pattern: &str = text::trim(left);
    if pattern.is_empty() {
        return None;
    }
    let (left, right): (&str, &str) = match text::rsplit_once(target, ':') {
        Some(parts) => parts,
        None => {
            return None;
        },
    };
    let ip: &str = text::trim(left);
    match number::parse_u16(text::trim(right)) {
        Some(port) => {
            if ip.is_empty() || port == 0 {
                return None;
            }
            Some(StaticRouteEntry { pattern: pattern.to_string(), ip: ip.to_string(), port })
        },
        None => None,
    }
}

/// Reads the static route list.
pub fn parse_static_routes(v: &str) -> (r: Vec<StaticRouteEntry>)
    ensures
        r.deep_view() == static_routes_of(v@),
{
    let seps: [char; 2] = [',', '\n'];
    let elements: Vec<&str> = text::split(v, &seps);
    let ghost all = elements.deep_view();
    let ghost f = |piece: Seq<char>| static_route_element(piece);
    let mut r: Vec<StaticRouteEntry> = Vec::new();
    let mut i: usize = 0;
    proof {
        assert(seps@ == static_route_separators());
        assert(all.take(0) == Seq::<Seq<char>>::empty());
        reveal(Seq::filter_map);
        assert(r.deep_view() == all.take(0).filter_map(f));
    }
    while i < elements.len()
        invariant
            i <= elements.len(),
            all == elements.deep_view(),
            f == (|piece: Seq<char>| static_route_element(piece)),
            r.deep_view() == all.take(i as int).filter_map(f),
        decreases elements.len() - i,
    {
        let ghost before = r.deep_view();
        proof {
            all.lemma_filter_map_take_succ(f, i as int);
        }
        let element: &str = text::trim(elements[i]);
        if !element.is_empty() {
            match parse_static_route(element) {
                Some(e) => {
                    r.push(e);
                    assert(r.deep_view() == before.push(e@));
                },
                None => {},
            }
        }
        i = i + 1;
    }
    assert(all.take(all.len() as int) == all);
    r
}

/// Every route of a static route list has a pattern, an address, and a port other than 0.
pub proof fn lemma_static_routes_complete(s: Seq<char>, i: int)
    requires
        0 <= i < static_routes_of(s).len(),
    ensures
        static_routes_of(s)[i].pattern.len() > 0,
        static_routes_of(s)[i].ip.len() > 0,
        static_routes_of(s)[i].port != 0,
{
    let f = |piece: Seq<char>| static_route_element(piece);
    let e = static_routes_of(s)[i];
    assert(static_routes_of(s).contains(e));
    sequences::lemma_filter_map_contains(text::pieces(s, static_route_separators()), f, e);
}

/// A static route that is written as `PATTERN=IP:PORT` is read back.
pub proof fn lemma_static_route_round_trip(pattern: Seq<char>, ip: Seq<char>, port: u16)
    requires
        pattern.len() > 0,
        text::trimmed(pattern) == pattern,
        !pattern.contains('='),
        ip.len() > 0,
        text::trimmed(ip) == ip,
        port != 0,
    ensures
        static_route_of(pattern + seq!['='] + (ip + seq![':'] + number::decimal_of(port as nat)))
            == Some(StaticRouteView { pattern, ip, port }),
{
    let d = number::decimal_of(port as nat);
    number::lemma_decimal_value(port as nat);
    number::lemma_decimal_round_trip(port);
    assert forall|i: int| 0 <= i < d.len() implies d[i] != ':' by {
        assert(number::is_digit(d[i]));
    }
    assert(number::is_digit(d[0]));
    assert(number::is_digit(d[d.len() - 1]));
    text::lemma_trimmed_keeps(d);
    text::lemma_cut_first(pattern, ip + seq![':'] + d, '=');
    text::lemma_cut_last(ip, d, ':');
}

/// The command line, with the environment applied.
#[derive(Debug)]
pub struct Args {
    /// The address that HTTP is served on.
    pub listen: String,
    /// The path of the Docker socket.
    pub docker_socket: String,
    /// The seconds between two checks for idle containers.
    pub idle_check_interval_secs: u64,
    /// The network on which host names become aliases of the proxy; empty for none.
    pub self_network: String,
    /// The static route list.
    pub static_routes: String,
}

/// The settings.
#[derive(Debug)]
pub struct Config {
    /// The address that HTTP is served on.
    pub listen: String,
    /// The path of the Docker socket.
    pub docker_socket: String,
    /// The seconds between two checks for idle containers.
    pub idle_check_interval_secs: u64,
    /// Routes to fixed addresses outside of the managed containers.
    pub static_routes: Vec<StaticRouteEntry>,
}

/// The mathematical value of a `Config`.
#[verifier::ext_equal]
pub struct ConfigView {
    pub listen: Seq<char>,
    pub docker_socket: Seq<char>,
    pub idle_check_interval_secs: u64,
    pub static_routes: Seq<StaticRouteView>,
}

impl View for Config {
    type V = ConfigView;

    open spec fn view(&self) -> ConfigView {
        ConfigView {
            listen: self.listen@,
            docker_socket: self.docker_socket@,
            idle_check_interval_secs: self.idle_check_interval_secs,
            static_routes: self.static_routes.deep_view(),
        }
    }
}

impl Default for Config {
    fn default() -> (r: Self)
        ensures
            r@ == (ConfigView {
                listen: "0.0.0.0:80"@,
                docker_socket: "/var/run/docker.sock"@,
                idle_check_interval_secs: 30,
                static_routes: Seq::empty(),
            }),
    {
        Config {
            listen: "0.0.0.0:80".to_string(),
            docker_socket: "/var/run/docker.sock".to_string(),
            idle_check_interval_secs: 30,
            static_routes: Vec::new(),
        }
    }
}

impl Config {
    /// The settings of a command line.
    pub fn from_args(args: &Args) -> (r: Self)
        ensures
            r@ == (ConfigView {
                listen: args.listen@,
                docker_socket: args.docker_socket@,
                idle_check_interval_secs: args.idle_check_interval_secs,
                static_routes: static_routes_of(args.static_routes@),
            }),
    {
        Config {
            listen: args.listen.clone(),
            docker_socket: args.docker_socket.clone(),
            idle_check_interval_secs: args.idle_check_interval_secs,
            static_routes: parse_static_routes(args.static_routes.as_str()),
        }
    }
}

} // verus!
