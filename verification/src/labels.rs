//! Reading containers from what the Docker API lists.

use crate::config;
use crate::container;
use crate::container::{Dependency, ManagedContainer, Route, TcpExpose};
use crate::number;
use crate::sequences;
use crate::string_map;
use crate::string_map::StringMap;
use crate::text;
use crate::time;
use crate::time::Duration;
use vstd::prelude::*;

verus! {

// ---------------------------------------------------------------------------------------------
// Values of single labels
// ---------------------------------------------------------------------------------------------

/// The elements of a label: its pieces between commas.
pub open spec fn elements(v: Seq<char>) -> Seq<Seq<char>> {
    text::pieces(v, seq![','])
}

/// Splits a label into its elements.
fn split_elements<'a>(v: &'a str) -> (r: Vec<&'a str>)
    ensures
        r.deep_view() == elements(v@),
{
    let seps: [char; 1] = [','];
    assert(seps@ == seq![',']);
    text::split(v, &seps)
}

/// The route that `s` describes as `host` or `host:port`. What follows the last `:` is part of the
/// host where it is not a port number, or is port 0.
pub open spec fn route_of(s: Seq<char>) -> Option<container::RouteView> {
    if s.len() == 0 {
        None
    } else {
        match text::cut_last(s, ':') {
            Some((host, right)) => match number::u16_of(right) {
                Some(port) if port != 0 => Some(container::RouteView { host, port: Some(port) }),
                _ => Some(container::RouteView { host: s, port: None }),
            },
            None => Some(container::RouteView { host: s, port: None }),
        }
    }
}

/// Reads one route, `host` or `host:port`. An IPv6 address is not understood.
pub fn parse_route(s: &str) -> (r: Option<Route>)
    ensures
        r.deep_view() == route_of(s@),
{
    if s.is_empty() {
        return None;
    }
    match text::rsplit_once(s, ':') {
        Some((host, right)) => match number::parse_u16(right) {
            Some(port) => {
                if port != 0 {
                    Some(Route { host: host.to_string(), port: Some(port) })
                } else {
                    Some(Route { host: s.to_string(), port: None })
                }
            },
            None => Some(Route { host: s.to_string(), port: None }),
        },
        None => Some(Route { host: s.to_string(), port: None }),
    }
}

/// The forwarded port that `v` describes as `PORT` or `LISTEN_PORT:CONTAINER_PORT`, spaces around
/// each part allowed. No port is 0.
pub open spec fn tcp_expose_of(v: Seq<char>) -> Option<TcpExpose> {
    let v = text::trimmed(v);
    let (listen, target) = match text::cut_first(v, ':') {
        Some((left, right)) => (
            number::u16_of(text::trimmed(left)),
            number::u16_of(text::trimmed(right)),
        ),
        None => (number::u16_of(v), number::u16_of(v)),
    };
    match (listen, target) {
        (Some(listen_port), Some(container_port)) if listen_port != 0 && container_port != 0 => Some(
            TcpExpose { listen_port, container_port },
        ),
        _ => None,
    }
}

/// Reads one forwarded port, `PORT` or `LISTEN_PORT:CONTAINER_PORT`.
pub fn parse_tcp_expose(v: &str) -> (r: Option<TcpExpose>)
    ensures
        r == tcp_expose_of(v@),
{
    let v: &str = text::trim(v);
    let (listen, target): (Option<u16>, Option<u16>) = match text::split_once(v, ':') {
        Some((left, right)) => (
            number::parse_u16(text::trim(left)),
            number::parse_u16(text::trim(right)),
        ),
        None => {
            let port: Option<u16> = number::parse_u16(v);
            (port, port)
        },
    };
    match (listen, target) {
        (Some(listen_port), Some(container_port)) => {
            if listen_port == 0 || container_port == 0 {
                None
            } else {
                Some(TcpExpose { listen_port, container_port })
            }
        },
        _ => None,
    }
}

/// The alias that an element names: the element without white space around it, unless it is empty.
pub open spec fn alias_of(s: Seq<char>) -> Option<Seq<char>> {
    if text::trimmed(s).len() == 0 {
        None
    } else {
        Some(text::trimmed(s))
    }
}

/// The condition of a dependency that names none.
pub const DEFAULT_CONDITION: &'static str = "service_started";

/// The dependency that an element describes as `SERVICE`, `SERVICE:CONDITION` or
/// `SERVICE:CONDITION:REQUIRED`.
pub open spec fn dependency_of(s: Seq<char>) -> Option<container::DependencyView> {
    let s = text::trimmed(s);
    let (service, condition) = match text::cut_first(s, ':') {
        Some((service, rest)) => (service, text::before_first(rest, ':')),
        None => (s, DEFAULT_CONDITION@),
    };
    if service.len() == 0 {
        None
    } else {
        Some(container::DependencyView { service, condition })
    }
}

/// Reads one dependency.
pub fn parse_dependency(s: &str) -> (r: Option<Dependency>)
    ensures
        r.deep_view() == dependency_of(s@),
{
    let s: &str = text::trim(s);
    let (service, condition): (&str, &str) = match text::split_once(s, ':') {
        Some((service, rest)) => (service, text::before(rest, ':')),
        None => (s, DEFAULT_CONDITION),
    };
    if service.is_empty() {
        None
    } else {
        Some(Dependency { service: service.to_string(), condition: condition.to_string() })
    }
}

// ---------------------------------------------------------------------------------------------
// Lists in labels
// ---------------------------------------------------------------------------------------------

/// The routes of a label whose elements are `host` or `host:port`.
pub open spec fn routes_of(v: Seq<char>) -> Seq<container::RouteView> {
    elements(v).filter_map(|s: Seq<char>| route_of(text::trimmed(s)))
}

/// Reads the hosts of a label.
pub fn parse_routes(v: &str) -> (r: Vec<Route>)
    ensures
        r.deep_view() == routes_of(v@),
{
    let parts: Vec<&str> = split_elements(v);
    let ghost all = parts.deep_view();
    let ghost f = |s: Seq<char>| route_of(text::trimmed(s));
    let mut r: Vec<Route> = Vec::new();
    let mut i: usize = 0;
    proof {
        reveal(Seq::filter_map);
        assert(all.take(0) == Seq::<Seq<char>>::empty());
        assert(r.deep_view() == all.take(0).filter_map(f));
    }
    while i < parts.len()
        invariant
            i <= parts.len(),
            all == parts.deep_view(),
            f == (|s: Seq<char>| route_of(text::trimmed(s))),
            r.deep_view() == all.take(i as int).filter_map(f),
        decreases parts.len() - i,
    {
        let ghost before = r.deep_view();
        proof {
            all.lemma_filter_map_take_succ(f, i as int);
        }
        match parse_route(text::trim(parts[i])) {
            Some(e) => {
                r.push(e);
                assert(r.deep_view() == before.push(e@));
            },
            None => {},
        }
        i = i + 1;
    }
    assert(all.take(all.len() as int) == all);
    r
}

/// The forwarded ports of a label.
pub open spec fn tcp_exposes_of(v: Seq<char>) -> Seq<TcpExpose> {
    elements(v).filter_map(|s: Seq<char>| tcp_expose_of(text::trimmed(s)))
}

/// Reads the forwarded ports of a label.
pub fn parse_tcp_exposes(v: &str) -> (r: Vec<TcpExpose>)
    ensures
        r.deep_view() == tcp_exposes_of(v@),
{
    let parts: Vec<&str> = split_elements(v);
    let ghost all = parts.deep_view();
    let ghost f = |s: Seq<char>| tcp_expose_of(text::trimmed(s));
    let mut r: Vec<TcpExpose> = Vec::new();
    let mut i: usize = 0;
    proof {
        reveal(Seq::filter_map);
        assert(all.take(0) == Seq::<Seq<char>>::empty());
        assert(r.deep_view() == all.take(0).filter_map(f));
    }
    while i < parts.len()
        invariant
            i <= parts.len(),
            all == parts.deep_view(),
            f == (|s: Seq<char>| tcp_expose_of(text::trimmed(s))),
            r.deep_view() == all.take(i as int).filter_map(f),
        decreases parts.len() - i,
    {
        let ghost before = r.deep_view();
        proof {
            all.lemma_filter_map_take_succ(f, i as int);
        }
        match parse_tcp_expose(text::trim(parts[i])) {
            Some(e) => {
                r.push(e);
                assert(r.deep_view() == before.push(e));
            },
            None => {},
        }
        i = i + 1;
    }
    assert(all.take(all.len() as int) == all);
    r
}

/// The aliases of a label. Ports have no meaning here.
pub open spec fn aliases_of(v: Seq<char>) -> Seq<Seq<char>> {
    elements(v).filter_map(|s: Seq<char>| alias_of(s))
}

/// Reads the aliases of a label.
pub fn parse_aliases(v: &str) -> (r: Vec<String>)
    ensures
        r.deep_view() == aliases_of(v@),
{
    let parts: Vec<&str> = split_elements(v);
    let ghost all = parts.deep_view();
    let ghost f = |s: Seq<char>| alias_of(s);
    let mut r: Vec<String> = Vec::new();
    let mut i: usize = 0;
    proof {
        reveal(Seq::filter_map);
        assert(all.take(0) == Seq::<Seq<char>>::empty());
        assert(r.deep_view() == all.take(0).filter_map(f));
    }
    while i < parts.len()
        invariant
            i <= parts.len(),
            all == parts.deep_view(),
            f == (|s: Seq<char>| alias_of(s)),
            r.deep_view() == all.take(i as int).filter_map(f),
        decreases parts.len() - i,
    {
        let ghost before = r.deep_view();
        proof {
            all.lemma_filter_map_take_succ(f, i as int);
        }
        let s: &str = text::trim(parts[i]);
        if !s.is_empty() {
            r.push(s.to_string());
            assert(r.deep_view() == before.push(s@));
        }
        i = i + 1;
    }
    assert(all.take(all.len() as int) == all);
    r
}

/// The dependencies of a label.
pub open spec fn depends_on_of(v: Seq<char>) -> Seq<container::DependencyView> {
    elements(v).filter_map(|s: Seq<char>| dependency_of(s))
}

/// Reads the dependencies of a label.
pub fn parse_depends_on(v: &str) -> (r: Vec<Dependency>)
    ensures
        r.deep_view() == depends_on_of(v@),
{
    let parts: Vec<&str> = split_elements(v);
    let ghost all = parts.deep_view();
    let ghost f = |s: Seq<char>| dependency_of(s);
    let mut r: Vec<Dependency> = Vec::new();
    let mut i: usize = 0;
    proof {
        reveal(Seq::filter_map);
        assert(all.take(0) == Seq::<Seq<char>>::empty());
        assert(r.deep_view() == all.take(0).filter_map(f));
    }
    while i < parts.len()
        invariant
            i <= parts.len(),
            all == parts.deep_view(),
            f == (|s: Seq<char>| dependency_of(s)),
            r.deep_view() == all.take(i as int).filter_map(f),
        decreases parts.len() - i,
    {
        let ghost before = r.deep_view();
        proof {
            all.lemma_filter_map_take_succ(f, i as int);
        }
        match parse_dependency(parts[i]) {
            Some(e) => {
                r.push(e);
                assert(r.deep_view() == before.push(e@));
            },
            None => {},
        }
        i = i + 1;
    }
    assert(all.take(all.len() as int) == all);
    r
}

/// The status codes of a label; elements that are no number are skipped.
pub open spec fn statuses_of(v: Seq<char>) -> Seq<u16> {
    elements(v).filter_map(|s: Seq<char>| number::u16_of(text::trimmed(s)))
}

/// Reads the status codes of a label.
pub fn parse_statuses(v: &str) -> (r: Vec<u16>)
    ensures
        r.deep_view() == statuses_of(v@),
{
    let parts: Vec<&str> = split_elements(v);
    let ghost all = parts.deep_view();
    let ghost f = |s: Seq<char>| number::u16_of(text::trimmed(s));
    let mut r: Vec<u16> = Vec::new();
    let mut i: usize = 0;
    proof {
        reveal(Seq::filter_map);
        assert(all.take(0) == Seq::<Seq<char>>::empty());
        assert(r.deep_view() == all.take(0).filter_map(f));
    }
    while i < parts.len()
        invariant
            i <= parts.len(),
            all == parts.deep_view(),
            f == (|s: Seq<char>| number::u16_of(text::trimmed(s))),
            r.deep_view() == all.take(i as int).filter_map(f),
        decreases parts.len() - i,
    {
        let ghost before = r.deep_view();
        proof {
            all.lemma_filter_map_take_succ(f, i as int);
        }
        match number::parse_u16(text::trim(parts[i])) {
            Some(e) => {
                r.push(e);
                assert(r.deep_view() == before.push(e));
            },
            None => {},
        }
        i = i + 1;
    }
    assert(all.take(all.len() as int) == all);
    r
}

// ---------------------------------------------------------------------------------------------
// Containers
// ---------------------------------------------------------------------------------------------

/// The state that the Docker API lists a container in.
#[derive(Debug, Clone, Copy, PartialEq, Eq, Structural)]
pub enum ContainerState {
    Empty,
    Created,
    Running,
    Paused,
    Restarting,
    Exited,
    Removing,
    Dead,
    Stopping,
}

/// What the Docker API lists of a container.
#[derive(Debug)]
pub struct ContainerSummary {
    /// The container's id.
    pub id: Option<String>,
    /// The container's names, each with its leading `/`.
    pub names: Option<Vec<String>>,
    /// The ports inside of the container, in the order that they are listed in.
    pub ports: Option<Vec<u16>>,
    /// The labels.
    pub labels: Option<StringMap<String>>,
    /// The state.
    pub state: Option<ContainerState>,
    /// When the container was created, in seconds of the Unix clock.
    pub created: Option<i64>,
}

impl Default for ContainerSummary {
    fn default() -> (r: Self)
        ensures
            r.id is None,
            r.names is None,
            r.ports is None,
            r.labels is None,
            r.state is None,
            r.created is None,
    {
        ContainerSummary {
            id: None,
            names: None,
            ports: None,
            labels: None,
            state: None,
            created: None,
        }
    }
}

/// The labels of a container.
pub type Labels = Seq<(Seq<char>, Seq<char>)>;

/// The text of a label.
pub open spec fn label(labels: Labels, key: Seq<char>) -> Option<Seq<char>> {
    string_map::lookup(labels, key)
}

/// A label is there and is `true`.
pub open spec fn is_set(labels: Labels, key: Seq<char>) -> bool {
    label(labels, key) == Some("true"@)
}

/// The number in a label.
pub open spec fn number_label(labels: Labels, key: Seq<char>) -> Option<u16> {
    match label(labels, key) {
        Some(v) => number::u16_of(v),
        None => None,
    }
}

/// The port that requests go to: that of the label, else that of the health check, else the first
/// that the container lists.
pub open spec fn port_of(labels: Labels, ports: Option<Seq<u16>>) -> Option<u16> {
    match number_label(labels, config::LABEL_PORT@) {
        Some(port) => Some(port),
        None => match number_label(labels, config::LABEL_HEALTHCHECK_PORT@) {
            Some(port) => Some(port),
            None => match ports {
                Some(ports) if ports.len() > 0 => Some(ports[0]),
                _ => None,
            },
        },
    }
}

/// The status codes that the health check accepts; a label without any counts as absent.
pub open spec fn healthcheck_status_of(labels: Labels) -> Option<Seq<u16>> {
    match label(labels, config::LABEL_HEALTHCHECK_STATUS@) {
        Some(v) if statuses_of(v).len() > 0 => Some(statuses_of(v)),
        _ => None,
    }
}

/// The managed container that a listed one is: none where it is not enabled by its label, or has
/// no id or no name.
pub open spec fn container_of(
    id: Option<Seq<char>>,
    names: Option<Seq<Seq<char>>>,
    ports: Option<Seq<u16>>,
    labels: Option<Labels>,
    state: Option<ContainerState>,
    created: Option<i64>,
) -> Option<container::ContainerView> {
    match (labels, id, names) {
        (Some(labels), Some(id), Some(names)) if is_set(labels, config::LABEL_ENABLE@) && names.len()
            > 0 => Some(
            container::ContainerView {
                id,
                name: names[0],
                port: port_of(labels, ports),
                tcp_expose: match label(labels, config::LABEL_TCP@) {
                    Some(v) => tcp_exposes_of(v),
                    None => Seq::empty(),
                },
                group: label(labels, config::LABEL_GROUP@),
                session_duration: time::duration_label(
                    label(labels, config::LABEL_SESSION_DURATION@),
                    Duration { secs: 3600, nanos: 0 },
                ),
                startup_timeout: time::duration_label(
                    label(labels, config::LABEL_STARTUP_TIMEOUT@),
                    Duration { secs: 180, nanos: 0 },
                ),
                healthcheck_path: label(labels, config::LABEL_HEALTHCHECK_PATH@),
                healthcheck_port: number_label(labels, config::LABEL_HEALTHCHECK_PORT@),
                healthcheck_status: healthcheck_status_of(labels),
                routes: match label(labels, config::LABEL_HOST@) {
                    Some(v) => routes_of(v),
                    None => Seq::empty(),
                },
                aliases: match label(labels, config::LABEL_ALIAS@) {
                    Some(v) => aliases_of(v),
                    None => Seq::empty(),
                },
                ip: None,
                running: state == Some(ContainerState::Running),
                created,
                depends_on: match label(labels, config::LABEL_COMPOSE_DEPENDS_ON@) {
                    Some(v) => depends_on_of(v),
                    None => Seq::empty(),
                },
                compose_project: label(labels, config::LABEL_COMPOSE_PROJECT@),
                compose_service: label(labels, config::LABEL_COMPOSE_SERVICE@),
                always_on: is_set(labels, config::LABEL_ALWAYS_ON@),
            },
        ),
        _ => None,
    }
}

/// The text of a label.
fn get_label<'a>(labels: &'a StringMap<String>, key: &str) -> (r: Option<&'a str>)
    ensures
        r.deep_view() == label(labels.deep_view(), key@),
{
    match labels.get(key) {
        Some(v) => Some(v.as_str()),
        None => None,
    }
}

/// A copy of the text of a label.
fn own_label(labels: &StringMap<String>, key: &str) -> (r: Option<String>)
    ensures
        r.deep_view() == label(labels.deep_view(), key@),
{
    match get_label(labels, key) {
        Some(v) => Some(v.to_string()),
        None => None,
    }
}

/// Whether a label is `true`.
fn flag_label(labels: &StringMap<String>, key: &str) -> (r: bool)
    ensures
        r == is_set(labels.deep_view(), key@),
{
    match get_label(labels, key) {
        Some(v) => text::equal(v, "true"),
        None => false,
    }
}

/// The number in a label.
fn get_number(labels: &StringMap<String>, key: &str) -> (r: Option<u16>)
    ensures
        r == number_label(labels.deep_view(), key@),
{
    match get_label(labels, key) {
        Some(v) => number::parse_u16(v),
        None => None,
    }
}

/// The duration in a label, or else an hour.
fn get_session_duration(labels: &StringMap<String>) -> (r: Duration)
    ensures
        r == time::duration_label(
            label(labels.deep_view(), config::LABEL_SESSION_DURATION@),
            Duration { secs: 3600, nanos: 0 },
        ),
        time::plain_label(label(labels.deep_view(), config::LABEL_SESSION_DURATION@), r),
{
    proof {
        reveal_strlit("1h");
        time::lemma_one_digit_span("1h"@, 1);
    }
    time::parse_duration(
        get_label(labels, config::LABEL_SESSION_DURATION),
        config::DEFAULT_SESSION_DURATION,
    )
}

/// The duration in a label, or else three minutes.
fn get_startup_timeout(labels: &StringMap<String>) -> (r: Duration)
    ensures
        r == time::duration_label(
            label(labels.deep_view(), config::LABEL_STARTUP_TIMEOUT@),
            Duration { secs: 180, nanos: 0 },
        ),
        time::plain_label(label(labels.deep_view(), config::LABEL_STARTUP_TIMEOUT@), r),
{
    proof {
        reveal_strlit("3m");
        time::lemma_one_digit_span("3m"@, 3);
    }
    time::parse_duration(
        get_label(labels, config::LABEL_STARTUP_TIMEOUT),
        config::DEFAULT_STARTUP_TIMEOUT,
    )
}

/// The port that requests go to.
fn get_port(labels: &StringMap<String>, ports: &Option<Vec<u16>>) -> (r: Option<u16>)
    ensures
        r == port_of(labels.deep_view(), ports.deep_view()),
{
    match get_number(labels, config::LABEL_PORT) {
        Some(port) => Some(port),
        None => match get_number(labels, config::LABEL_HEALTHCHECK_PORT) {
            Some(port) => Some(port),
            None => match ports {
                Some(ports) => if ports.len() > 0 {
                    Some(ports[0])
                } else {
                    None
                },
                None => None,
            },
        },
    }
}

/// The status codes that the health check accepts.
fn get_statuses(labels: &StringMap<String>) -> (r: Option<Vec<u16>>)
    ensures
        r.deep_view() == healthcheck_status_of(labels.deep_view()),
{
    match get_label(labels, config::LABEL_HEALTHCHECK_STATUS) {
        Some(v) => {
            let statuses: Vec<u16> = parse_statuses(v);
            assert(statuses.deep_view().len() == statuses@.len());
            if statuses.len() > 0 {
                Some(statuses)
            } else {
                None
            }
        },
        None => None,
    }
}

/// Tells whether a listed container is managed, and reads its labels.
pub fn parse_container(c: &ContainerSummary) -> (r: Option<ManagedContainer>)
    ensures
        r.deep_view() == container_of(
            c.id.deep_view(),
            c.names.deep_view(),
            c.ports.deep_view(),
            c.labels.deep_view(),
            c.state,
            c.created,
        ),
        r matches Some(m) ==> time::plain_label(
            label(c.labels->0.deep_view(), config::LABEL_SESSION_DURATION@),
            m.session_duration,
        ) && time::plain_label(
            label(c.labels->0.deep_view(), config::LABEL_STARTUP_TIMEOUT@),
            m.startup_timeout,
        ),
{
    let labels: &StringMap<String> = match &c.labels {
        Some(labels) => labels,
        None => {
            return None;
        },
    };
    if !flag_label(labels, config::LABEL_ENABLE) {
        return None;
    }
    let id: String = match &c.id {
        Some(id) => id.clone(),
        None => {
            return None;
        },
    };
    let name: String = match &c.names {
        Some(names) => {
            assert(names.deep_view().len() == names@.len());
            if names.len() == 0 {
                return None;
            }
            names[0].clone()
        },
        None => {
            return None;
        },
    };
    let tcp_expose: Vec<TcpExpose> = match get_label(labels, config::LABEL_TCP) {
        Some(v) => parse_tcp_exposes(v),
        None => Vec::new(),
    };
    let routes: Vec<Route> = match get_label(labels, config::LABEL_HOST) {
        Some(v) => parse_routes(v),
        None => Vec::new(),
    };
    let aliases: Vec<String> = match get_label(labels, config::LABEL_ALIAS) {
        Some(v) => parse_aliases(v),
        None => Vec::new(),
    };
    let depends_on: Vec<Dependency> = match get_label(labels, config::LABEL_COMPOSE_DEPENDS_ON) {
        Some(v) => parse_depends_on(v),
        None => Vec::new(),
    };
    let running: bool = match c.state {
        Some(state) => state == ContainerState::Running,
        None => false,
    };
    Some(
        ManagedContainer {
            id,
            name,
            port: get_port(labels, &c.ports),
            tcp_expose,
            group: own_label(labels, config::LABEL_GROUP),
            session_duration: get_session_duration(labels),
            startup_timeout: get_startup_timeout(labels),
            healthcheck_path: own_label(labels, config::LABEL_HEALTHCHECK_PATH),
            healthcheck_port: get_number(labels, config::LABEL_HEALTHCHECK_PORT),
            healthcheck_status: get_statuses(labels),
            routes,
            aliases,
            ip: None,
            running,
            created: c.created,
            depends_on,
            compose_project: own_label(labels, config::LABEL_COMPOSE_PROJECT),
            compose_service: own_label(labels, config::LABEL_COMPOSE_SERVICE),
            always_on: flag_label(labels, config::LABEL_ALWAYS_ON),
        },
    )
}

// ---------------------------------------------------------------------------------------------
// Laws
// ---------------------------------------------------------------------------------------------

/// A written number holds no `:`, and begins and ends with a digit.
proof fn lemma_decimal_shape(n: u16)
    ensures
        !number::decimal_of(n as nat).contains(':'),
        number::decimal_of(n as nat).len() > 0,
        !text::is_white_space(number::decimal_of(n as nat)[0]),
        !text::is_white_space(number::decimal_of(n as nat).last()),
{
    number::lemma_decimal_value(n as nat);
    let d = number::decimal_of(n as nat);
    assert forall|i: int| 0 <= i < d.len() implies d[i] != ':' by {
        assert(number::is_digit(d[i]));
    }
    assert(number::is_digit(d[0]));
    assert(number::is_digit(d[d.len() - 1]));
}

/// A host that is written with a port is read back with it, whatever the host is.
pub proof fn lemma_route_with_port(host: Seq<char>, port: u16)
    requires
        port != 0,
    ensures
        route_of(container::host_port(host, port)) == Some(
            container::RouteView { host, port: Some(port) },
        ),
{
    let d = number::decimal_of(port as nat);
    lemma_decimal_shape(port);
    number::lemma_decimal_round_trip(port);
    text::lemma_cut_last(host, d, ':');
}

/// A host without `:` is read back without a port.
pub proof fn lemma_route_without_port(host: Seq<char>)
    requires
        host.len() > 0,
        !host.contains(':'),
    ensures
        route_of(host) == Some(container::RouteView { host, port: None }),
{
}

/// One port number stands for both sides of a forwarded port.
pub proof fn lemma_one_port(port: u16)
    requires
        port != 0,
    ensures
        tcp_expose_of(number::decimal_of(port as nat)) == Some(
            TcpExpose { listen_port: port, container_port: port },
        ),
{
    let d = number::decimal_of(port as nat);
    lemma_decimal_shape(port);
    number::lemma_decimal_round_trip(port);
    text::lemma_trimmed_keeps(d);
}

/// Two port numbers joined by `:` stand for the listening port and the port of the container.
pub proof fn lemma_two_ports(listen_port: u16, container_port: u16)
    requires
        listen_port != 0,
        container_port != 0,
    ensures
        tcp_expose_of(container::host_port(number::decimal_of(listen_port as nat), container_port))
            == Some(TcpExpose { listen_port, container_port }),
{
    let a = number::decimal_of(listen_port as nat);
    let b = number::decimal_of(container_port as nat);
    lemma_decimal_shape(listen_port);
    lemma_decimal_shape(container_port);
    number::lemma_decimal_round_trip(listen_port);
    number::lemma_decimal_round_trip(container_port);
    let v = container::host_port(a, container_port);
    assert(v[0] == a[0]);
    assert(v.last() == b.last());
    text::lemma_trimmed_keeps(v);
    text::lemma_trimmed_keeps(a);
    text::lemma_trimmed_keeps(b);
    text::lemma_cut_first(a, b, ':');
}

/// A container without the enabling label is not managed.
pub proof fn lemma_not_enabled(
    id: Option<Seq<char>>,
    names: Option<Seq<Seq<char>>>,
    ports: Option<Seq<u16>>,
    labels: Option<Labels>,
    state: Option<ContainerState>,
    created: Option<i64>,
)
    requires
        labels matches Some(l) ==> !is_set(l, config::LABEL_ENABLE@),
    ensures
        container_of(id, names, ports, labels, state, created) is None,
{
}

/// No forwarded port is 0 on either side.
pub proof fn lemma_no_port_zero(v: Seq<char>, i: int)
    requires
        0 <= i < tcp_exposes_of(v).len(),
    ensures
        tcp_exposes_of(v)[i].listen_port != 0,
        tcp_exposes_of(v)[i].container_port != 0,
{
    let f = |s: Seq<char>| tcp_expose_of(text::trimmed(s));
    let e = tcp_exposes_of(v)[i];
    assert(tcp_exposes_of(v).contains(e));
    sequences::lemma_filter_map_contains(elements(v), f, e);
}

} // verus!
