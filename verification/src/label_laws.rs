//! What holds of settings and labels: how their texts are read.

use crate::config;
use crate::config::StaticRouteView;
use crate::container::{ContainerView, DependencyView, RouteView, TcpExpose};
use crate::labels;
use crate::labels::{ContainerState, Labels};
use crate::number;
use crate::sequences;
use crate::startup;
use crate::string_map;
use crate::text;
use crate::text_laws;
use crate::time;
use crate::time::{Duration, Place};
use vstd::prelude::*;

verus! {

// ---------------------------------------------------------------------------------------------
// Names
// ---------------------------------------------------------------------------------------------

/// The names of the labels, and the words and limits that have a meaning.
pub proof fn lemma_names()
    ensures
        config::LABEL_ENABLE@ == "dormant.enable"@,
        config::LABEL_GROUP@ == "dormant.group"@,
        config::LABEL_PORT@ == "dormant.port"@,
        config::LABEL_SESSION_DURATION@ == "dormant.session-duration"@,
        config::LABEL_STARTUP_TIMEOUT@ == "dormant.startup.timeout"@,
        config::LABEL_HEALTHCHECK_PATH@ == "dormant.healthcheck.path"@,
        config::LABEL_HEALTHCHECK_PORT@ == "dormant.healthcheck.port"@,
        config::LABEL_HEALTHCHECK_STATUS@ == "dormant.healthcheck.status"@,
        config::LABEL_HOST@ == "dormant.host"@,
        config::LABEL_ALIAS@ == "dormant.alias"@,
        config::LABEL_TCP@ == "dormant.tcp"@,
        config::LABEL_ALWAYS_ON@ == "dormant.always-on"@,
        config::LABEL_COMPOSE_DEPENDS_ON@ == "com.docker.compose.depends_on"@,
        config::LABEL_COMPOSE_PROJECT@ == "com.docker.compose.project"@,
        config::LABEL_COMPOSE_SERVICE@ == "com.docker.compose.service"@,
        config::DEFAULT_SESSION_DURATION@ == "1h"@,
        config::DEFAULT_STARTUP_TIMEOUT@ == "3m"@,
        labels::DEFAULT_CONDITION@ == "service_started"@,
        startup::SERVICE_HEALTHY@ == "service_healthy"@,
        config::MAX_DEPENDENCY_DEPTH == 10,
{
}

// ---------------------------------------------------------------------------------------------
// Elements
// ---------------------------------------------------------------------------------------------

/// `t` is `s` with white space around it, which `s` itself neither begins nor ends with.
pub open spec fn is_padded(t: Seq<char>, left: Seq<char>, s: Seq<char>, right: Seq<char>) -> bool {
    &&& t == left + s + right
    &&& text_laws::blank(left)
    &&& text_laws::blank(right)
    &&& s.len() > 0 ==> !text::is_white_space(s[0]) && !text::is_white_space(s.last())
}

proof fn lemma_padded(t: Seq<char>, left: Seq<char>, s: Seq<char>, right: Seq<char>)
    requires
        is_padded(t, left, s, right),
    ensures
        text::trimmed(t) == s,
        text::trimmed(s) == s,
{
    text_laws::lemma_trimmed_of(left, s, right);
    let none = Seq::<char>::empty();
    text_laws::lemma_trimmed_of(none, s, none);
    assert(none + s + none =~= s);
}

proof fn lemma_single<B>(t: Seq<char>, f: spec_fn(Seq<char>) -> Option<B>)
    requires
        !t.contains(','),
    ensures
        labels::elements(t).filter_map(f) == (match f(t) {
            Some(b) => seq![b],
            None => Seq::empty(),
        }),
{
    assert forall|i: int| 0 <= i < t.len() implies !seq![','].contains(#[trigger] t[i]) by {
        assert(t.contains(t[i]));
        if seq![','].contains(t[i]) {
            assert(seq![','][seq![','].index_of(t[i])] == ',');
        }
    }
    text_laws::lemma_one_piece(t, seq![',']);
    Seq::lemma_filter_map_singleton(t, f);
}

proof fn lemma_lists_join<B>(a: Seq<char>, b: Seq<char>, f: spec_fn(Seq<char>) -> Option<B>)
    ensures
        labels::elements(a + seq![','] + b).filter_map(f) == labels::elements(a).filter_map(f)
            + labels::elements(b).filter_map(f),
{
    assert(seq![','][0] == ',');
    assert(seq![','].contains(','));
    text_laws::lemma_pieces_join(a, ',', b, seq![',']);
    sequences::lemma_filter_map_joined(labels::elements(a), labels::elements(b), f);
}

/// A list of two lists joined by a comma is read as the one and then the other.
pub proof fn lemma_lists_joined(a: Seq<char>, b: Seq<char>)
    ensures
        labels::routes_of(a + seq![','] + b) == labels::routes_of(a) + labels::routes_of(b),
        labels::tcp_exposes_of(a + seq![','] + b) == labels::tcp_exposes_of(a)
            + labels::tcp_exposes_of(b),
        labels::aliases_of(a + seq![','] + b) == labels::aliases_of(a) + labels::aliases_of(b),
        labels::depends_on_of(a + seq![','] + b) == labels::depends_on_of(a)
            + labels::depends_on_of(b),
        labels::statuses_of(a + seq![','] + b) == labels::statuses_of(a) + labels::statuses_of(b),
{
    lemma_lists_join(a, b, |s: Seq<char>| labels::route_of(text::trimmed(s)));
    lemma_lists_join(a, b, |s: Seq<char>| labels::tcp_expose_of(text::trimmed(s)));
    lemma_lists_join(a, b, |s: Seq<char>| labels::alias_of(s));
    lemma_lists_join(a, b, |s: Seq<char>| labels::dependency_of(s));
    lemma_lists_join(a, b, |s: Seq<char>| number::u16_of(text::trimmed(s)));
}

/// An element without text between its white space stands for nothing in any list.
pub proof fn lemma_empty_element(t: Seq<char>)
    requires
        text_laws::blank(t),
        !t.contains(','),
    ensures
        labels::routes_of(t).len() == 0,
        labels::tcp_exposes_of(t).len() == 0,
        labels::aliases_of(t).len() == 0,
        labels::depends_on_of(t).len() == 0,
        labels::statuses_of(t).len() == 0,
{
    let none = Seq::<char>::empty();
    assert(t =~= t + none + none);
    lemma_padded(t, t, none, none);
    text_laws::lemma_cut_first_parts(none, ':');
    lemma_single(t, |s: Seq<char>| labels::route_of(text::trimmed(s)));
    lemma_single(t, |s: Seq<char>| labels::tcp_expose_of(text::trimmed(s)));
    lemma_single(t, |s: Seq<char>| labels::alias_of(s));
    lemma_single(t, |s: Seq<char>| labels::dependency_of(s));
    lemma_single(t, |s: Seq<char>| number::u16_of(text::trimmed(s)));
}

/// A host is read without white space around it, and with the port behind its last `:`, where a port
/// number other than 0 stands there; otherwise what stands there belongs to the host.
pub proof fn lemma_host_element(
    t: Seq<char>,
    left: Seq<char>,
    s: Seq<char>,
    right: Seq<char>,
    host: Seq<char>,
    tail: Seq<char>,
)
    requires
        !t.contains(','),
        is_padded(t, left, s, right),
        s.len() > 0,
    ensures
        !s.contains(':') ==> labels::routes_of(t) == seq![RouteView { host: s, port: None }],
        s == host + seq![':'] + tail && !tail.contains(':') ==> labels::routes_of(t) == seq![
            match number::u16_of(tail) {
                Some(port) => if port == 0 {
                    RouteView { host: s, port: None }
                } else {
                    RouteView { host, port: Some(port) }
                },
                None => RouteView { host: s, port: None },
            },
        ],
{
    lemma_padded(t, left, s, right);
    let f = |x: Seq<char>| labels::route_of(text::trimmed(x));
    lemma_single(t, f);
    text_laws::lemma_cut_last_parts(s, ':');
    if s == host + seq![':'] + tail && !tail.contains(':') {
        text::lemma_cut_last(host, tail, ':');
    }
}

/// A forwarded port is read as two numbers with a `:` between them, or as one that stands for both,
/// without white space around each; where one of them is no port number, or is 0, nothing is read.
pub proof fn lemma_tcp_element(
    t: Seq<char>,
    left: Seq<char>,
    s: Seq<char>,
    right: Seq<char>,
    a: (Seq<char>, Seq<char>, Seq<char>),
    b: (Seq<char>, Seq<char>, Seq<char>),
    x: Seq<char>,
    y: Seq<char>,
)
    requires
        !t.contains(','),
        is_padded(t, left, s, right),
        is_padded(x, a.0, a.1, a.2),
        is_padded(y, b.0, b.1, b.2),
    ensures
        !s.contains(':') ==> labels::tcp_exposes_of(t) == (match number::u16_of(s) {
            Some(port) => if port == 0 {
                Seq::empty()
            } else {
                seq![TcpExpose { listen_port: port, container_port: port }]
            },
            None => Seq::empty(),
        }),
        s == x + seq![':'] + y && !x.contains(':') ==> labels::tcp_exposes_of(t) == (match (
            number::u16_of(a.1),
            number::u16_of(b.1),
        ) {
            (Some(p), Some(q)) => if p == 0 || q == 0 {
                Seq::empty()
            } else {
                seq![TcpExpose { listen_port: p, container_port: q }]
            },
            _ => Seq::empty(),
        }),
{
    lemma_padded(t, left, s, right);
    lemma_padded(x, a.0, a.1, a.2);
    lemma_padded(y, b.0, b.1, b.2);
    let f = |z: Seq<char>| labels::tcp_expose_of(text::trimmed(z));
    lemma_single(t, f);
    text_laws::lemma_cut_first_parts(s, ':');
    if s == x + seq![':'] + y && !x.contains(':') {
        text::lemma_cut_first(x, y, ':');
    }
}

/// An alias is read as it stands, without white space around it.
pub proof fn lemma_alias_element(t: Seq<char>, left: Seq<char>, s: Seq<char>, right: Seq<char>)
    requires
        !t.contains(','),
        is_padded(t, left, s, right),
        s.len() > 0,
    ensures
        labels::aliases_of(t) == seq![s],
{
    lemma_padded(t, left, s, right);
    lemma_single(t, |x: Seq<char>| labels::alias_of(x));
}

/// A dependency is read as a service, with the condition up to the next `:` where one follows it, and
/// otherwise with `service_started`. Without a service nothing is read.
pub proof fn lemma_dependency_element(
    t: Seq<char>,
    left: Seq<char>,
    s: Seq<char>,
    right: Seq<char>,
    service: Seq<char>,
    condition: Seq<char>,
    more: Seq<char>,
)
    requires
        !t.contains(','),
        is_padded(t, left, s, right),
        !service.contains(':'),
        !condition.contains(':'),
    ensures
        s == service && service.len() > 0 ==> labels::depends_on_of(t) == seq![
            DependencyView { service, condition: "service_started"@ },
        ],
        (s == service + seq![':'] + condition || s == service + seq![':'] + (condition + seq![':']
            + more)) && service.len() > 0 ==> labels::depends_on_of(t) == seq![
            DependencyView { service, condition },
        ],
        s.len() == 0 || s[0] == ':' ==> labels::depends_on_of(t).len() == 0,
{
    lemma_padded(t, left, s, right);
    lemma_single(t, |x: Seq<char>| labels::dependency_of(x));
    text_laws::lemma_cut_first_parts(s, ':');
    if s == service + seq![':'] + condition {
        text::lemma_cut_first(service, condition, ':');
        text_laws::lemma_cut_first_parts(condition, ':');
    }
    if s == service + seq![':'] + (condition + seq![':'] + more) {
        text::lemma_cut_first(service, condition + seq![':'] + more, ':');
        text::lemma_cut_first(condition, more, ':');
    }
    if s.len() > 0 && s[0] == ':' {
        let none = Seq::<char>::empty();
        assert(s =~= none + seq![':'] + s.skip(1));
        text::lemma_cut_first(none, s.skip(1), ':');
    }
}

/// A status code is read without white space around it; what is no number is skipped.
pub proof fn lemma_status_element(t: Seq<char>, left: Seq<char>, s: Seq<char>, right: Seq<char>)
    requires
        !t.contains(','),
        is_padded(t, left, s, right),
    ensures
        number::u16_of(s) matches Some(n) ==> labels::statuses_of(t) == seq![n],
        number::u16_of(s) is None ==> labels::statuses_of(t).len() == 0,
{
    lemma_padded(t, left, s, right);
    lemma_single(t, |x: Seq<char>| number::u16_of(text::trimmed(x)));
}

// ---------------------------------------------------------------------------------------------
// The static route list
// ---------------------------------------------------------------------------------------------

/// A list of two static route lists joined by a comma or a line feed is read as the one and then the
/// other.
pub proof fn lemma_static_lists_joined(a: Seq<char>, sep: char, b: Seq<char>)
    requires
        sep == ',' || sep == '\n',
    ensures
        config::static_routes_of(a + seq![sep] + b) == config::static_routes_of(a)
            + config::static_routes_of(b),
{
    let seps = config::static_route_separators();
    assert(seps[0] == ',' && seps[1] == '\n');
    assert(seps.contains(sep));
    text_laws::lemma_pieces_join(a, sep, b, seps);
    sequences::lemma_filter_map_joined(
        text::pieces(a, seps),
        text::pieces(b, seps),
        |piece: Seq<char>| config::static_route_element(piece),
    );
}

/// One element of the static route list is read as `PATTERN=IP:PORT`, without white space around it
/// and around each of its parts; it is skipped where the pattern or the address is empty, and where
/// the port is no port number or is 0.
pub proof fn lemma_static_element(
    t: Seq<char>,
    left: Seq<char>,
    s: Seq<char>,
    right: Seq<char>,
    x: Seq<char>,
    pattern: (Seq<char>, Seq<char>, Seq<char>),
    y: Seq<char>,
    ip: (Seq<char>, Seq<char>, Seq<char>),
    z: Seq<char>,
    port: (Seq<char>, Seq<char>, Seq<char>),
)
    requires
        !t.contains(',') && !t.contains('\n'),
        is_padded(t, left, s, right),
        is_padded(x, pattern.0, pattern.1, pattern.2),
        is_padded(y, ip.0, ip.1, ip.2),
        is_padded(z, port.0, port.1, port.2),
        !x.contains('='),
        !z.contains(':'),
        s == x + seq!['='] + (y + seq![':'] + z),
    ensures
        config::static_routes_of(t) == (match number::u16_of(port.1) {
            Some(p) => if p == 0 || pattern.1.len() == 0 || ip.1.len() == 0 {
                Seq::empty()
            } else {
                seq![StaticRouteView { pattern: pattern.1, ip: ip.1, port: p }]
            },
            None => Seq::empty(),
        }),
{
    lemma_padded(t, left, s, right);
    lemma_padded(x, pattern.0, pattern.1, pattern.2);
    lemma_padded(y, ip.0, ip.1, ip.2);
    lemma_padded(z, port.0, port.1, port.2);
    text::lemma_cut_first(x, y + seq![':'] + z, '=');
    text::lemma_cut_last(y, z, ':');
    lemma_static_single(t);
}

/// An element without a `=`, or without a `:` behind it, stands for no static route.
pub proof fn lemma_no_static_element(
    t: Seq<char>,
    left: Seq<char>,
    s: Seq<char>,
    right: Seq<char>,
    x: Seq<char>,
    y: Seq<char>,
)
    requires
        !t.contains(',') && !t.contains('\n'),
        is_padded(t, left, s, right),
        !s.contains('=') || (s == x + seq!['='] + y && !x.contains('=') && !y.contains(':')),
    ensures
        config::static_routes_of(t).len() == 0,
{
    lemma_padded(t, left, s, right);
    text_laws::lemma_cut_first_parts(s, '=');
    text_laws::lemma_cut_last_parts(y, ':');
    if s.contains('=') {
        text::lemma_cut_first(x, y, '=');
    }
    lemma_static_single(t);
}

proof fn lemma_static_single(t: Seq<char>)
    requires
        !t.contains(',') && !t.contains('\n'),
    ensures
        config::static_routes_of(t) == (match config::static_route_element(t) {
            Some(e) => seq![e],
            None => Seq::empty(),
        }),
{
    let seps = config::static_route_separators();
    assert forall|i: int| 0 <= i < t.len() implies !seps.contains(#[trigger] t[i]) by {
        assert(t.contains(t[i]));
        if seps.contains(t[i]) {
            let k = seps.index_of(t[i]);
            assert(seps[k] == t[i]);
        }
    }
    text_laws::lemma_one_piece(t, seps);
    Seq::lemma_filter_map_singleton(t, |piece: Seq<char>| config::static_route_element(piece));
}

// ---------------------------------------------------------------------------------------------
// Containers
// ---------------------------------------------------------------------------------------------

/// The text of a label is that of the first entry with its name.
pub proof fn lemma_label(labels: Labels, key: Seq<char>, i: int)
    ensures
        0 <= i < labels.len() && labels[i].0 == key && (forall|j: int|
            0 <= j < i ==> (#[trigger] labels[j]).0 != key) ==> labels::label(labels, key) == Some(
            labels[i].1,
        ),
        (forall|j: int| 0 <= j < labels.len() ==> (#[trigger] labels[j]).0 != key)
            ==> labels::label(labels, key) is None,
{
    if 0 <= i < labels.len() && labels[i].0 == key && (forall|j: int|
        0 <= j < i ==> (#[trigger] labels[j]).0 != key) {
        string_map::lemma_position_is(labels, key, i);
    }
}

/// A listed container is managed exactly where its label `dormant.enable` is `true` and it has an id
/// and a name.
pub proof fn lemma_managed(
    id: Option<Seq<char>>,
    names: Option<Seq<Seq<char>>>,
    ports: Option<Seq<u16>>,
    labels: Option<Labels>,
    state: Option<ContainerState>,
    created: Option<i64>,
)
    ensures
        labels::container_of(id, names, ports, labels, state, created) is Some <==> (
        labels matches Some(l) && labels::label(l, "dormant.enable"@) == Some("true"@)) && id is Some
            && (names matches Some(v) && v.len() > 0),
{
}

/// The list that a label holds, or an empty one without the label.
pub open spec fn listed<A>(
    label: Option<Seq<char>>,
    read: spec_fn(Seq<char>) -> Seq<A>,
    list: Seq<A>,
) -> bool {
    match label {
        Some(v) => list == read(v),
        None => list.len() == 0,
    }
}

/// Where everything about a managed container comes from: its id, its first name, its state and its
/// time of creation from the listing, and all else from its labels.
pub proof fn lemma_container_of(
    id: Option<Seq<char>>,
    names: Option<Seq<Seq<char>>>,
    ports: Option<Seq<u16>>,
    l: Labels,
    state: Option<ContainerState>,
    created: Option<i64>,
    c: ContainerView,
)
    requires
        labels::container_of(id, names, ports, Some(l), state, created) == Some(c),
    ensures
        Some(c.id) == id,
        c.name == names->0[0],
        c.created == created,
        c.running <==> state == Some(ContainerState::Running),
        c.ip is None,
        c.group == labels::label(l, "dormant.group"@),
        c.healthcheck_path == labels::label(l, "dormant.healthcheck.path"@),
        c.compose_project == labels::label(l, "com.docker.compose.project"@),
        c.compose_service == labels::label(l, "com.docker.compose.service"@),
        c.always_on <==> labels::label(l, "dormant.always-on"@) == Some("true"@),
        listed(
            labels::label(l, "dormant.host"@),
            |v: Seq<char>| labels::routes_of(v),
            c.routes,
        ),
        listed(
            labels::label(l, "dormant.alias"@),
            |v: Seq<char>| labels::aliases_of(v),
            c.aliases,
        ),
        listed(
            labels::label(l, "dormant.tcp"@),
            |v: Seq<char>| labels::tcp_exposes_of(v),
            c.tcp_expose,
        ),
        listed(
            labels::label(l, "com.docker.compose.depends_on"@),
            |v: Seq<char>| labels::depends_on_of(v),
            c.depends_on,
        ),
        c.healthcheck_status matches Some(codes) ==> codes.len() > 0 && (labels::label(
            l,
            "dormant.healthcheck.status"@,
        ) matches Some(v) && codes == labels::statuses_of(v)),
        c.healthcheck_status is None ==> (labels::label(
            l,
            "dormant.healthcheck.status"@,
        ) matches Some(v) ==> labels::statuses_of(v).len() == 0),
{
}

/// The port of a health check is the number in its label. The port of a container is the number in
/// its own label; without one there that of the health check; and without that the first that the
/// container lists.
pub proof fn lemma_ports_of_container(
    id: Option<Seq<char>>,
    names: Option<Seq<Seq<char>>>,
    ports: Option<Seq<u16>>,
    l: Labels,
    state: Option<ContainerState>,
    created: Option<i64>,
    c: ContainerView,
    own: Option<u16>,
    check: Option<u16>,
)
    requires
        labels::container_of(id, names, ports, Some(l), state, created) == Some(c),
        match labels::label(l, "dormant.port"@) {
            Some(v) => own == number::u16_of(v),
            None => own is None,
        },
        match labels::label(l, "dormant.healthcheck.port"@) {
            Some(v) => check == number::u16_of(v),
            None => check is None,
        },
    ensures
        c.healthcheck_port == check,
        own is Some ==> c.port == own,
        own is None && check is Some ==> c.port == check,
        own is None && check is None && (ports matches Some(v) && v.len() > 0) ==> c.port == Some(
            ports->0[0],
        ),
        own is None && check is None && (ports matches Some(v) ==> v.len() == 0) ==> c.port is None,
{
}

/// A session lasts an hour, and a start may take three minutes, where the labels do not say otherwise
/// or cannot be read; where one of them can be read, it says how long.
pub proof fn lemma_durations_of_container(
    id: Option<Seq<char>>,
    names: Option<Seq<Seq<char>>>,
    ports: Option<Seq<u16>>,
    l: Labels,
    state: Option<ContainerState>,
    created: Option<i64>,
    c: ContainerView,
)
    requires
        labels::container_of(id, names, ports, Some(l), state, created) == Some(c),
    ensures
        labels::label(l, "dormant.session-duration"@) is None ==> c.session_duration == (Duration {
            secs: 3600,
            nanos: 0,
        }),
        labels::label(l, "dormant.startup.timeout"@) is None ==> c.startup_timeout == (Duration {
            secs: 180,
            nanos: 0,
        }),
        labels::label(l, "dormant.session-duration"@) matches Some(v) ==> {
            &&& time::duration_of(v) matches Some(d) ==> c.session_duration == d
            &&& time::duration_of(v) is None ==> c.session_duration == (Duration {
                secs: 3600,
                nanos: 0,
            })
        },
        labels::label(l, "dormant.startup.timeout"@) matches Some(v) ==> {
            &&& time::duration_of(v) matches Some(d) ==> c.startup_timeout == d
            &&& time::duration_of(v) is None ==> c.startup_timeout == (Duration {
                secs: 180,
                nanos: 0,
            })
        },
{
}

// ---------------------------------------------------------------------------------------------
// Durations
// ---------------------------------------------------------------------------------------------

/// What a duration text stands for is what `humantime` reads from it, and nothing where its numbers
/// do not fit.
pub proof fn lemma_duration_of(s: Seq<char>)
    ensures
        time::in_range(s) ==> (time::humantime_duration(s) matches Some((secs, nanos))
            ==> time::duration_of(s) == Some(Duration { secs, nanos })),
        time::in_range(s) && time::humantime_duration(s) is None ==> time::duration_of(s) is None,
        !time::in_range(s) ==> time::duration_of(s) is None,
{
}

/// A number of whole hours, minutes or seconds stands for that many seconds, whatever zeros it
/// begins with.
pub proof fn lemma_plain_span(n: nat, zeros: nat)
    ensures
        ({
            let d = text_laws::repeated('0', zeros) + number::decimal_of(n);
            &&& time::plain_span(d + seq!['h']) == Some((3600 * n) as nat)
            &&& time::plain_span(d + seq!['m']) == Some((60 * n) as nat)
            &&& time::plain_span(d + seq!['s']) == Some(n)
        }),
{
    let d = text_laws::repeated('0', zeros) + number::decimal_of(n);
    number::lemma_decimal_value(n);
    text_laws::lemma_zeros_value(number::decimal_of(n), zeros);
    assert((d + seq!['h']).drop_last() =~= d);
    assert((d + seq!['m']).drop_last() =~= d);
    assert((d + seq!['s']).drop_last() =~= d);
}

/// The tally of digits is their number, and they fit where it is below two to the power of 64.
proof fn lemma_digits_tally(d: Seq<char>)
    requires
        number::all_digits(d),
    ensures
        ({
            let t = time::tally(d);
            &&& t.total == 0
            &&& t.whole == number::digits_value(d)
            &&& t.digits == 0
            &&& t.power == 1
            &&& t.place == Place::Number
            &&& t.fits <==> number::digits_value(d) < 18_446_744_073_709_551_616
        }),
    decreases d.len(),
{
    if d.len() > 0 {
        let init = d.drop_last();
        assert forall|i: int| 0 <= i < init.len() implies number::is_digit(#[trigger] init[i]) by {
            assert(init[i] == d[i]);
        }
        lemma_digits_tally(init);
        assert(number::is_digit(d[d.len() - 1]));
        assert(time::tally(d) == time::tally_next(time::tally(init), d.last()));
    }
}

/// The nanoseconds of the units of time, by the letters that they begin with.
pub open spec fn is_unit(c: char, nanos: nat) -> bool {
    ||| c == 'n' && nanos == 1
    ||| c == 'u' && nanos == 1_000
    ||| c == 's' && nanos == 1_000_000_000
    ||| c == 'm' && nanos == 60 * 1_000_000_000
    ||| c == 'h' && nanos == 3600 * 1_000_000_000
    ||| c == 'd' && nanos == 86_400 * 1_000_000_000
    ||| c == 'w' && nanos == 604_800 * 1_000_000_000
    ||| c == 'M' && nanos == 2_630_016 * 1_000_000_000
    ||| c == 'y' && nanos == 31_557_600 * 1_000_000_000
}

/// A whole number of one unit of time is in range exactly where the number fits in 64 bits and so do
/// the seconds that it comes to.
pub proof fn lemma_one_span_in_range(d: Seq<char>, c: char, nanos: nat)
    requires
        number::all_digits(d),
        is_unit(c, nanos),
    ensures
        time::in_range(d.push(c)) <==> number::digits_value(d) < 18_446_744_073_709_551_616
            && number::digits_value(d) * nanos < 18_446_744_073_709_551_616 * 1_000_000_000,
{
    lemma_digits_tally(d);
    let s = d.push(c);
    assert(s.drop_last() =~= d);
    assert(s.last() == c);
    let before = time::tally(d);
    let after = time::tally(s);
    assert(after == time::tally_next(before, c));
    assert(0 * nanos == 0) by (nonlinear_arith);
    assert(0 * (time::MINUTE as nat) == 0);
    assert(time::span(before, nanos) == number::digits_value(d) * nanos);
    assert(time::settled(after).total == time::span(before, nanos));
}

/// A number behind a unit of time begins a new span; the spans before it stay what they are.
proof fn lemma_digits_after(a: Seq<char>, e: Seq<char>)
    requires
        time::tally(a).place == Place::Unit || time::tally(a).place == Place::LetterM,
        number::all_digits(e),
        e.len() > 0,
    ensures
        ({
            let (t, u) = (time::settled(time::tally(a)), time::tally(a + e));
            &&& u.total == t.total
            &&& u.whole == number::digits_value(e)
            &&& u.digits == 0
            &&& u.power == 1
            &&& u.place == Place::Number
            &&& u.fits <==> t.fits && number::digits_value(e) < 18_446_744_073_709_551_616
        }),
    decreases e.len(),
{
    let init = e.drop_last();
    let all = a + e;
    assert(all.drop_last() =~= a + init);
    assert(all.last() == e.last());
    assert(number::is_digit(e[e.len() - 1]));
    assert(time::tally(all) == time::tally_next(time::tally(a + init), e.last()));
    if e.len() == 1 {
        assert(a + init =~= a);
        assert(number::digits_value(init) == 0);
    } else {
        assert forall|i: int| 0 <= i < init.len() implies number::is_digit(#[trigger] init[i]) by {
            assert(init[i] == e[i]);
        }
        lemma_digits_after(a, init);
    }
}

/// White space behind a unit of time changes nothing about the spans.
proof fn lemma_gap_after(a: Seq<char>, gap: Seq<char>)
    requires
        time::tally(a).place == Place::Unit || time::tally(a).place == Place::LetterM,
        text_laws::blank(gap),
    ensures
        ({
            let (t, u) = (time::settled(time::tally(a)), time::settled(time::tally(a + gap)));
            &&& u.total == t.total
            &&& u.fits == t.fits
            &&& time::tally(a + gap).place == Place::Unit || time::tally(a + gap).place
                == Place::LetterM
        }),
    decreases gap.len(),
{
    if gap.len() == 0 {
        assert(a + gap =~= a);
    } else {
        let init = gap.drop_last();
        assert forall|i: int| 0 <= i < init.len() implies text::is_white_space(
            #[trigger] init[i],
        ) by {
            assert(init[i] == gap[i]);
        }
        lemma_gap_after(a, init);
        let all = a + gap;
        assert(all.drop_last() =~= a + init);
        assert(all.last() == gap.last());
        assert(text::is_white_space(gap[gap.len() - 1]));
        assert(time::tally(all) == time::tally_next(time::tally(a + init), gap.last()));
    }
}

/// Two spans of whole numbers, with white space between them or none, are in range exactly where both
/// numbers fit in 64 bits and so do the seconds that the spans come to together.
pub proof fn lemma_two_spans_in_range(
    d: Seq<char>,
    c: char,
    c_nanos: nat,
    gap: Seq<char>,
    e: Seq<char>,
    b: char,
    b_nanos: nat,
)
    requires
        number::all_digits(d),
        is_unit(c, c_nanos),
        text_laws::blank(gap),
        number::all_digits(e),
        e.len() > 0,
        is_unit(b, b_nanos),
    ensures
        time::in_range((d.push(c) + gap + e).push(b)) <==> number::digits_value(d)
            < 18_446_744_073_709_551_616 && number::digits_value(e) < 18_446_744_073_709_551_616
            && number::digits_value(d) * c_nanos + number::digits_value(e) * b_nanos
            < 18_446_744_073_709_551_616 * 1_000_000_000,
{
    lemma_digits_tally(d);
    let first = d.push(c);
    assert(first.drop_last() =~= d);
    assert(first.last() == c);
    assert(time::tally(first) == time::tally_next(time::tally(d), c));
    assert(0 * c_nanos == 0) by (nonlinear_arith);
    assert(0 * (time::MINUTE as nat) == 0);
    assert(time::span(time::tally(d), c_nanos) == number::digits_value(d) * c_nanos);
    assert(time::settled(time::tally(first)).total == number::digits_value(d) * c_nanos);
    lemma_gap_after(first, gap);
    lemma_digits_after(first + gap, e);
    let before = time::tally(first + gap + e);
    let s = (first + gap + e).push(b);
    assert(s.drop_last() =~= first + gap + e);
    assert(s.last() == b);
    assert(time::tally(s) == time::tally_next(before, b));
    assert(0 * b_nanos == 0) by (nonlinear_arith);
    assert(time::span(before, b_nanos) == number::digits_value(e) * b_nanos);
}

/// A whole number with `ms`, `min` or `mo` is one of milliseconds, minutes or months.
pub proof fn lemma_spans_of_m(d: Seq<char>)
    requires
        number::all_digits(d),
    ensures
        ({
            let n = number::digits_value(d);
            let fits = n < 18_446_744_073_709_551_616;
            let limit = 18_446_744_073_709_551_616 * 1_000_000_000;
            let m = d.push('m');
            &&& time::in_range(m.push('s')) <==> fits && n * 1_000_000 < limit
            &&& time::in_range(m.push('i').push('n')) <==> fits && n * 60_000_000_000 < limit
            &&& time::in_range(m.push('i').push('l')) <==> fits && n * 1_000_000 < limit
            &&& time::in_range(m.push('o')) <==> fits && n * 2_630_016_000_000_000 < limit
        }),
{
    lemma_digits_tally(d);
    let m = d.push('m');
    assert(m.drop_last() =~= d);
    assert(time::tally(m) == time::tally_next(time::tally(d), 'm'));
    assert(m.push('s').drop_last() =~= m);
    assert(m.push('o').drop_last() =~= m);
    assert(m.push('i').drop_last() =~= m);
    assert(m.push('i').push('n').drop_last() =~= m.push('i'));
    assert(m.push('i').push('l').drop_last() =~= m.push('i'));
    assert(time::tally(m.push('s')) == time::tally_next(time::tally(m), 's'));
    assert(time::tally(m.push('o')) == time::tally_next(time::tally(m), 'o'));
    assert(time::tally(m.push('i')) == time::tally_next(time::tally(m), 'i'));
    assert(time::tally(m.push('i').push('n')) == time::tally_next(time::tally(m.push('i')), 'n'));
    assert(time::tally(m.push('i').push('l')) == time::tally_next(time::tally(m.push('i')), 'l'));
}

/// What follows a text counts by what was read of the text alone.
proof fn lemma_tally_goes_on(a: Seq<char>, b: Seq<char>, rest: Seq<char>)
    requires
        time::tally(a) == time::tally(b),
    ensures
        time::tally(a + rest) == time::tally(b + rest),
    decreases rest.len(),
{
    if rest.len() == 0 {
        assert(a + rest =~= a);
        assert(b + rest =~= b);
    } else {
        let init = rest.drop_last();
        lemma_tally_goes_on(a, b, init);
        assert((a + rest).drop_last() =~= a + init);
        assert((b + rest).drop_last() =~= b + init);
        assert((a + rest).last() == rest.last());
        assert((b + rest).last() == rest.last());
    }
}

/// White space behind the digits of a number does not end the number: without it, the text is in
/// range exactly where it is with it.
pub proof fn lemma_gap_in_number(d: Seq<char>, gap: Seq<char>, rest: Seq<char>)
    requires
        number::all_digits(d),
        text_laws::blank(gap),
    ensures
        time::in_range(d + gap + rest) <==> time::in_range(d + rest),
{
    lemma_digits_tally(d);
    lemma_gap_tally(d, gap);
    lemma_tally_goes_on(d + gap, d, rest);
}

proof fn lemma_gap_tally(d: Seq<char>, gap: Seq<char>)
    requires
        time::tally(d).place == Place::Number,
        text_laws::blank(gap),
    ensures
        time::tally(d + gap) == time::tally(d),
    decreases gap.len(),
{
    if gap.len() == 0 {
        assert(d + gap =~= d);
    } else {
        let init = gap.drop_last();
        assert forall|i: int| 0 <= i < init.len() implies text::is_white_space(
            #[trigger] init[i],
        ) by {
            assert(init[i] == gap[i]);
        }
        lemma_gap_tally(d, init);
        assert((d + gap).drop_last() =~= d + init);
        assert((d + gap).last() == gap.last());
        assert(text::is_white_space(gap[gap.len() - 1]));
        assert(time::tally(d + gap) == time::tally_next(time::tally(d + init), gap.last()));
    }
}

/// Ten to the power of `n`.
pub open spec fn ten_to_the(n: nat) -> nat
    decreases n,
{
    if n == 0 {
        1
    } else {
        10 * ten_to_the((n - 1) as nat)
    }
}

proof fn lemma_fraction_tally(d: Seq<char>, e: Seq<char>)
    requires
        number::all_digits(d),
        number::all_digits(e),
    ensures
        ({
            let t = time::tally(d.push('.') + e);
            &&& t.total == 0
            &&& t.whole == number::digits_value(d)
            &&& t.digits == number::digits_value(e)
            &&& t.power == ten_to_the(e.len())
            &&& t.place == Place::Fraction
            &&& t.fits <==> number::digits_value(d) < 18_446_744_073_709_551_616
                && number::digits_value(e) < 18_446_744_073_709_551_616 && ten_to_the(e.len())
                < 18_446_744_073_709_551_616
        }),
    decreases e.len(),
{
    let start = d.push('.');
    if e.len() == 0 {
        lemma_digits_tally(d);
        assert(start + e =~= start);
        assert(start.drop_last() =~= d);
        assert(time::tally(start) == time::tally_next(time::tally(d), '.'));
    } else {
        let init = e.drop_last();
        assert forall|i: int| 0 <= i < init.len() implies number::is_digit(#[trigger] init[i]) by {
            assert(init[i] == e[i]);
        }
        lemma_fraction_tally(d, init);
        assert((start + e).drop_last() =~= start + init);
        assert((start + e).last() == e.last());
        assert(number::is_digit(e[e.len() - 1]));
        assert(time::tally(start + e) == time::tally_next(time::tally(start + init), e.last()));
    }
}

/// A number with a fraction of one unit of time is in range exactly where its whole part, the digits
/// of its fraction and the power of ten that they are divided by fit in 64 bits, and so do the
/// seconds that it comes to.
pub proof fn lemma_fraction_in_range(d: Seq<char>, e: Seq<char>, c: char, nanos: nat)
    requires
        number::all_digits(d),
        number::all_digits(e),
        is_unit(c, nanos),
    ensures
        ({
            let (whole, digits) = (number::digits_value(d), number::digits_value(e));
            time::in_range((d.push('.') + e).push(c)) <==> whole < 18_446_744_073_709_551_616
                && digits < 18_446_744_073_709_551_616 && ten_to_the(e.len())
                < 18_446_744_073_709_551_616 && whole * nanos + digits * nanos / ten_to_the(e.len())
                < 18_446_744_073_709_551_616 * 1_000_000_000
        }),
{
    lemma_fraction_tally(d, e);
    let before = time::tally(d.push('.') + e);
    let s = (d.push('.') + e).push(c);
    assert(s.drop_last() =~= d.push('.') + e);
    assert(s.last() == c);
    assert(time::tally(s) == time::tally_next(before, c));
    assert(time::settled(time::tally(s)).total == time::span(before, nanos));
}

} // verus!
