//! Routing: from hosts and ports to containers.

use crate::config::StaticRouteEntry;
use crate::container;
use crate::container::{ContainerView, ManagedContainer, Route};
use crate::number;
use crate::statics;
use crate::statics::{StaticRoutes, StaticTarget};
use crate::string_map;
use crate::string_map::StringMap;
use crate::text;
use std::collections::HashMap;
use vstd::prelude::*;

verus! {

// ---------------------------------------------------------------------------------------------
// Entries and results
// ---------------------------------------------------------------------------------------------

/// A container that answers for a host.
#[derive(Debug)]
pub struct RouteEntry {
    /// The container.
    pub container: ManagedContainer,
    /// The port for this host; `None` for the container's own port.
    pub port: Option<u16>,
}

/// The mathematical value of a `RouteEntry`.
#[verifier::ext_equal]
pub struct EntryView {
    pub container: ContainerView,
    pub port: Option<u16>,
}

impl View for RouteEntry {
    type V = EntryView;

    open spec fn view(&self) -> EntryView {
        EntryView { container: self.container@, port: self.port }
    }
}

impl DeepView for RouteEntry {
    type V = EntryView;

    open spec fn deep_view(&self) -> EntryView {
        self@
    }
}

impl Clone for RouteEntry {
    fn clone(&self) -> (r: Self)
        ensures
            r@ == self@,
    {
        RouteEntry { container: self.container.clone(), port: self.port }
    }
}

impl RouteEntry {
    /// Whether the container runs.
    pub fn is_running(&self) -> (r: bool)
        ensures
            r == self@.container.running,
    {
        self.container.is_running()
    }
}

/// What a host resolves to.
#[derive(Debug)]
pub enum RouteResult {
    /// A container and the port to use there.
    Dynamic(Box<ManagedContainer>, u16),
    /// A fixed address, where nothing has to be started.
    Static(StaticTarget),
}

/// The mathematical value of a `RouteResult`.
#[verifier::ext_equal]
pub enum ResultView {
    Dynamic(ContainerView, u16),
    Static(statics::StaticTargetView),
}

impl View for RouteResult {
    type V = ResultView;

    open spec fn view(&self) -> ResultView {
        match self {
            RouteResult::Dynamic(c, port) => ResultView::Dynamic(c@, *port),
            RouteResult::Static(t) => ResultView::Static(t@),
        }
    }
}

impl DeepView for RouteResult {
    type V = ResultView;

    open spec fn deep_view(&self) -> ResultView {
        self@
    }
}

impl Clone for RouteResult {
    fn clone(&self) -> (r: Self)
        ensures
            r@ == self@,
    {
        match self {
            RouteResult::Dynamic(c, port) => {
                let copy: ManagedContainer = (**c).clone();
                RouteResult::Dynamic(Box::new(copy), *port)
            },
            RouteResult::Static(t) => RouteResult::Static(t.clone()),
        }
    }
}

impl RouteResult {
    /// The container of a dynamic route.
    pub fn container(&self) -> (r: Option<&ManagedContainer>)
        ensures
            r.deep_view() == (match self@ {
                ResultView::Dynamic(c, _) => Some(c),
                ResultView::Static(_) => None,
            }),
    {
        match self {
            RouteResult::Dynamic(c, _) => Some(&**c),
            RouteResult::Static(_) => None,
        }
    }

    /// The target of a static route.
    pub fn static_target(&self) -> (r: Option<&StaticTarget>)
        ensures
            r.deep_view() == (match self@ {
                ResultView::Static(t) => Some(t),
                ResultView::Dynamic(_, _) => None,
            }),
    {
        match self {
            RouteResult::Static(t) => Some(t),
            RouteResult::Dynamic(_, _) => None,
        }
    }
}

// ---------------------------------------------------------------------------------------------
// The tables
// ---------------------------------------------------------------------------------------------

/// Hosts and the containers that answer for them.
pub type Routes = Seq<(Seq<char>, Seq<EntryView>)>;

/// Listening ports and the containers behind them.
pub type TcpRoutes = Map<u16, Seq<ContainerView>>;

/// The host that a container answers for by its name: the name without leading `/` and without the
/// replica number that compose puts at its end.
pub open spec fn host_of_name(name: Seq<char>) -> Seq<char> {
    let bare = text::trim_leading(name, '/');
    match text::cut_last(bare, '-') {
        Some((head, replica)) if replica.len() > 0 && number::all_digits(replica) => head,
        _ => bare,
    }
}

/// The port that the routes name for a host: that of the first route for the host, if it has one.
pub open spec fn named_port(routes: Seq<container::RouteView>, host: Seq<char>) -> Option<u16>
    decreases routes.len(),
{
    if routes.len() == 0 {
        None
    } else if routes[0].host == host {
        routes[0].port
    } else {
        named_port(routes.skip(1), host)
    }
}

/// The hosts that a container answers for, first by its name, then by its routes; each with the
/// port that the routes name for it.
pub open spec fn hosts_of(c: ContainerView) -> Seq<(Seq<char>, Option<u16>)> {
    seq![(host_of_name(c.name), named_port(c.routes, host_of_name(c.name)))]
        + c.routes.map_values(
        |r: container::RouteView| (r.host, named_port(c.routes, r.host)),
    )
}

/// Some entry is for the container with this id.
pub open spec fn has_entry(v: Seq<EntryView>, id: Seq<char>) -> bool {
    exists|i: int| 0 <= i < v.len() && (#[trigger] v[i]).container.id == id
}

/// The entries with one for `c`, unless its id is there already.
pub open spec fn with_entry(v: Seq<EntryView>, c: ContainerView, port: Option<u16>) -> Seq<
    EntryView,
> {
    if has_entry(v, c.id) {
        v
    } else {
        v.push(EntryView { container: c, port })
    }
}

/// The entries of a host.
pub open spec fn entries_of(routes: Routes, host: Seq<char>) -> Seq<EntryView> {
    match string_map::lookup(routes, host) {
        Some(v) => v,
        None => Seq::empty(),
    }
}

/// The table after `c` is entered for `host`.
pub open spec fn with_host(
    routes: Routes,
    host: Seq<char>,
    c: ContainerView,
    port: Option<u16>,
) -> Routes {
    string_map::inserted(routes, host, with_entry(entries_of(routes, host), c, port))
}

/// The table after `c` is entered for each of `hosts`.
pub open spec fn with_hosts(
    routes: Routes,
    hosts: Seq<(Seq<char>, Option<u16>)>,
    c: ContainerView,
) -> Routes
    decreases hosts.len(),
{
    if hosts.len() == 0 {
        routes
    } else {
        with_host(
            with_hosts(routes, hosts.drop_last(), c),
            hosts.last().0,
            c,
            hosts.last().1,
        )
    }
}

/// The table of a list of containers.
pub open spec fn routes_of(containers: Seq<ContainerView>) -> Routes
    decreases containers.len(),
{
    if containers.len() == 0 {
        Seq::empty()
    } else {
        let c = containers.last();
        with_hosts(routes_of(containers.drop_last()), hosts_of(c), c)
    }
}

/// Some container has this id.
pub open spec fn has_id(v: Seq<ContainerView>, id: Seq<char>) -> bool {
    exists|i: int| 0 <= i < v.len() && (#[trigger] v[i]).id == id
}

/// The containers with `c`, unless its id is there already.
pub open spec fn with_container(v: Seq<ContainerView>, c: ContainerView) -> Seq<ContainerView> {
    if has_id(v, c.id) {
        v
    } else {
        v.push(c)
    }
}

/// The containers behind a listening port.
pub open spec fn behind(tcp: TcpRoutes, port: u16) -> Seq<ContainerView> {
    if tcp.contains_key(port) {
        tcp[port]
    } else {
        Seq::empty()
    }
}

/// The table after `c` is entered behind `port`.
pub open spec fn with_port(tcp: TcpRoutes, port: u16, c: ContainerView) -> TcpRoutes {
    tcp.insert(port, with_container(behind(tcp, port), c))
}

/// The table after `c` is entered behind the listening port of each of `exposes`.
pub open spec fn with_ports(
    tcp: TcpRoutes,
    exposes: Seq<container::TcpExpose>,
    c: ContainerView,
) -> TcpRoutes
    decreases exposes.len(),
{
    if exposes.len() == 0 {
        tcp
    } else {
        with_port(with_ports(tcp, exposes.drop_last(), c), exposes.last().listen_port, c)
    }
}

/// The table of listening ports of a list of containers.
pub open spec fn tcp_routes_of(containers: Seq<ContainerView>) -> TcpRoutes
    decreases containers.len(),
{
    if containers.len() == 0 {
        Map::empty()
    } else {
        let c = containers.last();
        with_ports(tcp_routes_of(containers.drop_last()), c.tcp_expose, c)
    }
}

// ---------------------------------------------------------------------------------------------
// Choosing
// ---------------------------------------------------------------------------------------------

/// A creation time is not after another; an unknown one is before all others.
pub open spec fn not_newer(a: Option<i64>, b: Option<i64>) -> bool {
    match (a, b) {
        (None, _) => true,
        (Some(_), None) => false,
        (Some(x), Some(y)) => x <= y,
    }
}

/// `b` is chosen over `a`, or as soon: running containers over stopped ones, then newer ones over
/// older ones.
pub open spec fn not_better(a: ContainerView, b: ContainerView) -> bool {
    if a.running != b.running {
        b.running
    } else {
        not_newer(a.created, b.created)
    }
}

/// The entry that is chosen: the last of the best.
pub open spec fn chosen(v: Seq<EntryView>) -> Option<EntryView>
    decreases v.len(),
{
    if v.len() == 0 {
        None
    } else {
        match chosen(v.drop_last()) {
            Some(best) if !not_better(best.container, v.last().container) => Some(best),
            _ => Some(v.last()),
        }
    }
}

/// The container that is chosen: the last of the best.
pub open spec fn chosen_container(v: Seq<ContainerView>) -> Option<ContainerView>
    decreases v.len(),
{
    if v.len() == 0 {
        None
    } else {
        match chosen_container(v.drop_last()) {
            Some(best) if !not_better(best, v.last()) => Some(best),
            _ => Some(v.last()),
        }
    }
}

/// The entries of the first host in the table that `host` is below: of which it is a longer name
/// with the same end.
pub open spec fn entries_above(routes: Routes, host: Seq<char>) -> Option<Seq<EntryView>>
    decreases routes.len(),
{
    if routes.len() == 0 {
        None
    } else if statics::is_proper_suffix(routes[0].0, host) {
        Some(routes[0].1)
    } else {
        entries_above(routes.skip(1), host)
    }
}

/// The entry that answers for `host`: one of its own, or else one of a host above it.
pub open spec fn entry_for(routes: Routes, host: Seq<char>) -> Option<EntryView> {
    match chosen(entries_of(routes, host)) {
        Some(e) => Some(e),
        None => match entries_above(routes, host) {
            Some(v) => chosen(v),
            None => None,
        },
    }
}

impl EntryView {
    /// The port to use: that of the host, else the container's own, else 0.
    pub open spec fn target_port(self) -> u16 {
        match self.port {
            Some(port) => port,
            None => match self.container.port {
                Some(port) => port,
                None => 0,
            },
        }
    }
}

/// The containers in the table, as they stand there.
pub open spec fn listed(routes: Routes) -> Seq<ContainerView>
    decreases routes.len(),
{
    if routes.len() == 0 {
        Seq::empty()
    } else {
        listed(routes.drop_last()) + routes.last().1.map_values(|e: EntryView| e.container)
    }
}

/// The containers with only the first of each id.
pub open spec fn unique(v: Seq<ContainerView>) -> Seq<ContainerView>
    decreases v.len(),
{
    if v.len() == 0 {
        Seq::empty()
    } else {
        with_container(unique(v.drop_last()), v.last())
    }
}

/// The containers of a group.
pub open spec fn in_group(group: Seq<char>) -> spec_fn(ContainerView) -> bool {
    |c: ContainerView| c.group == Some(group)
}

// ---------------------------------------------------------------------------------------------
// The router
// ---------------------------------------------------------------------------------------------

/// The routing tables.
#[derive(Debug)]
pub struct Router {
    routes: StringMap<Vec<RouteEntry>>,
    tcp_listen: HashMap<u16, Vec<ManagedContainer>>,
    static_routes: StaticRoutes,
}

/// The mathematical value of a `Router`.
#[verifier::ext_equal]
pub struct RouterView {
    pub routes: Routes,
    pub tcp: TcpRoutes,
    pub statics: statics::StaticRoutesView,
}

/// The mathematical value of a table of listening ports.
pub open spec fn tcp_view(m: Map<u16, Vec<ManagedContainer>>) -> TcpRoutes {
    m.map_values(|v: Vec<ManagedContainer>| v.deep_view())
}

impl View for Router {
    type V = RouterView;

    closed spec fn view(&self) -> RouterView {
        RouterView {
            routes: self.routes@,
            tcp: tcp_view(self.tcp_listen@),
            statics: self.static_routes@,
        }
    }
}

impl RouterView {
    /// The container that answers for `host`, and the port to use there, static routes left aside.
    pub open spec fn dynamic(self, host: Seq<char>) -> Option<(ContainerView, u16)> {
        match entry_for(self.routes, host) {
            Some(e) => Some((e.container, e.target_port())),
            None => None,
        }
    }

    /// What `host` resolves to: a container, or else a static route.
    pub open spec fn resolution(self, host: Seq<char>) -> Option<ResultView> {
        match self.dynamic(host) {
            Some((c, port)) => Some(ResultView::Dynamic(c, port)),
            None => match self.statics.target(host) {
                Some(t) => Some(ResultView::Static(t)),
                None => None,
            },
        }
    }

    /// The containers in the table, each id once.
    pub open spec fn containers(self) -> Seq<ContainerView> {
        unique(listed(self.routes))
    }

    /// The containers of a group, each id once.
    pub open spec fn group(self, group: Seq<char>) -> Seq<ContainerView> {
        unique(listed(self.routes).filter(in_group(group)))
    }
}

/// A clash between a static route and a host of the dynamic table, where the container wins.
#[derive(Debug)]
pub enum StaticConflict {
    /// A host has both.
    Exact(String),
    /// A wildcard, given by its suffix, covers a host.
    Wildcard(String, String),
}

/// The mathematical value of a `StaticConflict`.
#[verifier::ext_equal]
pub enum ConflictView {
    Exact(Seq<char>),
    Wildcard(Seq<char>, Seq<char>),
}

impl View for StaticConflict {
    type V = ConflictView;

    open spec fn view(&self) -> ConflictView {
        match self {
            StaticConflict::Exact(host) => ConflictView::Exact(host@),
            StaticConflict::Wildcard(suffix, host) => ConflictView::Wildcard(suffix@, host@),
        }
    }
}

impl DeepView for StaticConflict {
    type V = ConflictView;

    open spec fn deep_view(&self) -> ConflictView {
        self@
    }
}

/// The clash of a static route for a whole host name with a host of the table.
pub open spec fn exact_conflict(routes: Routes, host: Seq<char>) -> Option<ConflictView> {
    if string_map::has_key(routes, host) {
        Some(ConflictView::Exact(host))
    } else {
        None
    }
}

/// The clash of a wildcard with a host of the table.
pub open spec fn wildcard_conflict(suffix: Seq<char>, host: Seq<char>) -> Option<ConflictView> {
    if suffix.is_suffix_of(host) {
        Some(ConflictView::Wildcard(suffix, host))
    } else {
        None
    }
}

/// The clashes of a wildcard with the hosts of the table.
pub open spec fn covered(routes: Routes, suffix: Seq<char>) -> Seq<ConflictView> {
    routes.filter_map(|r: (Seq<char>, Seq<EntryView>)| wildcard_conflict(suffix, r.0))
}

/// The clashes of wildcards with the hosts of the table.
pub open spec fn wildcard_conflicts(routes: Routes, wildcards: statics::Wildcards) -> Seq<
    ConflictView,
>
    decreases wildcards.len(),
{
    if wildcards.len() == 0 {
        Seq::empty()
    } else {
        wildcard_conflicts(routes, wildcards.drop_last()) + covered(routes, wildcards.last().0)
    }
}

impl RouterView {
    /// The clashes between static routes and hosts of the dynamic table.
    pub open spec fn conflicts(self) -> Seq<ConflictView> {
        self.statics.exact.filter_map(
            |e: (Seq<char>, statics::StaticTargetView)| exact_conflict(self.routes, e.0),
        ) + wildcard_conflicts(self.routes, self.statics.wildcard)
    }
}

/// `s` consists of decimal digits.
fn only_digits(s: &str) -> (r: bool)
    ensures
        r == number::all_digits(s@),
{
    let v: Vec<char> = text::chars_of(s);
    let mut i: usize = 0;
    while i < v.len()
        invariant
            i <= v.len(),
            v@ == s@,
            forall|j: int| 0 <= j < i ==> number::is_digit(#[trigger] s@[j]),
        decreases v.len() - i,
    {
        if v[i] < '0' || '9' < v[i] {
            assert(!number::is_digit(s@[i as int]));
            return false;
        }
        i = i + 1;
    }
    true
}

/// The host that a container answers for by its name.
pub fn name_host(name: &str) -> (r: String)
    ensures
        r@ == host_of_name(name@),
{
    let bare: &str = text::trim_start_matches(name, '/');
    match text::rsplit_once(bare, '-') {
        Some((head, replica)) => if !replica.is_empty() && only_digits(replica) {
            head.to_string()
        } else {
            bare.to_string()
        },
        None => bare.to_string(),
    }
}

/// The port that the routes name for a host.
fn find_port(routes: &Vec<Route>, host: &str) -> (r: Option<u16>)
    ensures
        r == named_port(routes.deep_view(), host@),
{
    let ghost all = routes.deep_view();
    let mut i: usize = 0;
    assert(all.skip(0) == all);
    while i < routes.len()
        invariant
            i <= routes@.len(),
            all == routes.deep_view(),
            named_port(all, host@) == named_port(all.skip(i as int), host@),
        decreases routes.len() - i,
    {
        assert(all.skip(i as int)[0] == routes@[i as int]@);
        if text::equal(routes[i].host.as_str(), host) {
            return routes[i].port;
        }
        assert(all.skip(i as int).skip(1) == all.skip(i + 1));
        i = i + 1;
    }
    None
}

/// Whether an entry is for the container with this id.
fn contains_entry(v: &Vec<RouteEntry>, id: &str) -> (r: bool)
    ensures
        r == has_entry(v.deep_view(), id@),
{
    let mut i: usize = 0;
    while i < v.len()
        invariant
            i <= v.len(),
            forall|j: int| 0 <= j < i ==> (#[trigger] v.deep_view()[j]).container.id != id@,
        decreases v.len() - i,
    {
        assert(v.deep_view()[i as int] == v@[i as int]@);
        if text::equal(v[i].container.id.as_str(), id) {
            return true;
        }
        i = i + 1;
    }
    false
}

/// Whether a container has this id.
pub fn contains_id(v: &Vec<ManagedContainer>, id: &str) -> (r: bool)
    ensures
        r == has_id(v.deep_view(), id@),
{
    let mut i: usize = 0;
    while i < v.len()
        invariant
            i <= v.len(),
            forall|j: int| 0 <= j < i ==> (#[trigger] v.deep_view()[j]).id != id@,
        decreases v.len() - i,
    {
        assert(v.deep_view()[i as int] == v@[i as int]@);
        if text::equal(v[i].id.as_str(), id) {
            return true;
        }
        i = i + 1;
    }
    false
}

/// Adds `c` unless its id is there already.
fn push_unique(v: &mut Vec<ManagedContainer>, c: &ManagedContainer)
    ensures
        final(v).deep_view() == with_container(old(v).deep_view(), c@),
{
    let ghost before = v.deep_view();
    if !contains_id(v, c.id.as_str()) {
        v.push(c.clone());
        assert(v.deep_view() == before.push(c@));
    }
}

/// Whether a creation time is not after another.
fn created_not_newer(a: Option<i64>, b: Option<i64>) -> (r: bool)
    ensures
        r == not_newer(a, b),
{
    match (a, b) {
        (None, _) => true,
        (Some(_), None) => false,
        (Some(x), Some(y)) => x <= y,
    }
}

/// Whether `b` is chosen over `a`, or as soon.
fn no_better(a: &ManagedContainer, b: &ManagedContainer) -> (r: bool)
    ensures
        r == not_better(a@, b@),
{
    if a.running != b.running {
        b.running
    } else {
        created_not_newer(a.created, b.created)
    }
}

/// Turns an entry into its container and the port to use there.
pub fn resolved_port(e: RouteEntry) -> (r: (ManagedContainer, u16))
    ensures
        r.0@ == e@.container,
        r.1 == e@.target_port(),
{
    let port: u16 = match e.port {
        Some(port) => port,
        None => match e.container.port {
            Some(port) => port,
            None => 0,
        },
    };
    (e.container, port)
}

impl Router {
    /// Empty tables.
    pub fn new() -> (r: Self)
        ensures
            r@ == (RouterView {
                routes: Seq::empty(),
                tcp: Map::empty(),
                statics: statics::StaticRoutesView { exact: Seq::empty(), wildcard: Seq::empty() },
            }),
    {
        let r = Router {
            routes: StringMap::new(),
            tcp_listen: HashMap::new(),
            static_routes: StaticRoutes::empty(),
        };
        assert(tcp_view(r.tcp_listen@) == Map::<u16, Seq<ContainerView>>::empty());
        r
    }

    /// Enters `c` for `host`, unless its id is there already.
    fn add(
        table: &mut StringMap<Vec<RouteEntry>>,
        host: &str,
        c: &ManagedContainer,
        port: Option<u16>,
    )
        ensures
            final(table)@ == with_host(old(table)@, host@, c@, port),
    {
        let ghost before = table@;
        proof {
            string_map::lemma_position(before, host@);
        }
        match table.find(host) {
            Some(i) => {
                let present: bool = contains_entry(table.value(i), c.id.as_str());
                if !present {
                    let v: &mut Vec<RouteEntry> = table.value_mut(i);
                    let ghost entries = (*v).deep_view();
                    v.push(RouteEntry { container: c.clone(), port });
                    assert((*v).deep_view() == entries.push(EntryView { container: c@, port }));
                }
                assert(table@ == with_host(before, host@, c@, port));
            },
            None => {
                let mut v: Vec<RouteEntry> = Vec::new();
                v.push(RouteEntry { container: c.clone(), port });
                assert(v.deep_view() == Seq::<EntryView>::empty().push(
                    EntryView { container: c@, port },
                ));
                table.insert(host.to_string(), v);
            },
        }
    }

    /// Enters `c` behind `port`, unless its id is there already.
    fn add_tcp(table: &mut HashMap<u16, Vec<ManagedContainer>>, port: u16, c: &ManagedContainer)
        ensures
            tcp_view(final(table)@) == with_port(tcp_view(old(table)@), port, c@),
    {
        broadcast use vstd::std_specs::hash::group_hash_axioms;

        let ghost before = tcp_view(table@);
        let none: Vec<ManagedContainer> = Vec::new();
        assert(none.deep_view() == Seq::<ContainerView>::empty());
        let v: &mut Vec<ManagedContainer> = table.entry(port).or_insert(none);
        assert((*v).deep_view() == behind(before, port));
        push_unique(v, c);
        assert(tcp_view(table@) == with_port(before, port, c@));
    }

    /// Enters `c` for the host of its name and for its routes.
    fn add_hosts(table: &mut StringMap<Vec<RouteEntry>>, c: &ManagedContainer)
        ensures
            final(table)@ == with_hosts(old(table)@, hosts_of(c@), c@),
    {
        let ghost before = table@;
        let ghost hosts = hosts_of(c@);
        let name: String = name_host(c.name.as_str());
        Self::add(table, name.as_str(), c, find_port(&c.routes, name.as_str()));
        proof {
            let one = hosts.take(1);
            assert(one.drop_last() == Seq::<(Seq<char>, Option<u16>)>::empty());
            assert(with_hosts(before, one.drop_last(), c@) == before);
            assert(one.last() == hosts[0]);
        }
        let mut i: usize = 0;
        while i < c.routes.len()
            invariant
                i <= c.routes@.len(),
                hosts == hosts_of(c@),
                table@ == with_hosts(before, hosts.take(i + 1), c@),
            decreases c.routes.len() - i,
        {
            proof {
                let next = hosts.take(i + 2);
                assert(next.drop_last() == hosts.take(i + 1));
                assert(c@.routes[i as int] == c.routes@[i as int]@);
                let host = c.routes@[i as int].host@;
                assert(next.last() == (host, named_port(c@.routes, host)));
            }
            let host: &str = c.routes[i].host.as_str();
            Self::add(table, host, c, find_port(&c.routes, host));
            i = i + 1;
        }
        assert(hosts.take(c.routes@.len() as int + 1) == hosts);
    }

    /// Enters `c` behind its listening ports.
    fn add_ports(table: &mut HashMap<u16, Vec<ManagedContainer>>, c: &ManagedContainer)
        ensures
            tcp_view(final(table)@) == with_ports(tcp_view(old(table)@), c@.tcp_expose, c@),
    {
        let ghost before = tcp_view(table@);
        let ghost exposes = c@.tcp_expose;
        let mut i: usize = 0;
        assert(exposes.take(0) == Seq::<container::TcpExpose>::empty());
        while i < c.tcp_expose.len()
            invariant
                i <= c.tcp_expose@.len(),
                exposes == c@.tcp_expose,
                tcp_view(table@) == with_ports(before, exposes.take(i as int), c@),
            decreases c.tcp_expose.len() - i,
        {
            proof {
                let next = exposes.take(i + 1);
                assert(next.drop_last() == exposes.take(i as int));
                assert(next.last() == c.tcp_expose@[i as int]);
            }
            Self::add_tcp(table, c.tcp_expose[i].listen_port, c);
            i = i + 1;
        }
        assert(exposes.take(exposes.len() as int) == exposes);
    }

    /// Rebuilds the dynamic tables from a list of containers.
    pub fn update(&mut self, containers: Vec<ManagedContainer>)
        ensures
            final(self)@ == (RouterView {
                routes: routes_of(containers.deep_view()),
                tcp: tcp_routes_of(containers.deep_view()),
                statics: old(self)@.statics,
            }),
    {
        let mut routes: StringMap<Vec<RouteEntry>> = StringMap::new();
        let mut tcp: HashMap<u16, Vec<ManagedContainer>> = HashMap::new();
        let ghost all = containers.deep_view();
        let mut i: usize = 0;
        proof {
            assert(all.take(0) == Seq::<ContainerView>::empty());
            assert(tcp_view(tcp@) == tcp_routes_of(all.take(0)));
        }
        while i < containers.len()
            invariant
                i <= containers@.len(),
                all == containers.deep_view(),
                routes@ == routes_of(all.take(i as int)),
                tcp_view(tcp@) == tcp_routes_of(all.take(i as int)),
            decreases containers.len() - i,
        {
            proof {
                let next = all.take(i + 1);
                assert(next.drop_last() == all.take(i as int));
                assert(next.last() == containers@[i as int]@);
            }
            Self::add_hosts(&mut routes, &containers[i]);
            Self::add_ports(&mut tcp, &containers[i]);
            i = i + 1;
        }
        assert(all.take(all.len() as int) == all);
        self.routes = routes;
        self.tcp_listen = tcp;
    }

    /// The best entry: a running container over a stopped one, then a newer over an older one.
    fn pick(candidates: &Vec<RouteEntry>) -> (r: Option<RouteEntry>)
        ensures
            r.deep_view() == chosen(candidates.deep_view()),
    {
        let ghost all = candidates.deep_view();
        if candidates.len() == 0 {
            return None;
        }
        let mut best: usize = 0;
        let mut i: usize = 1;
        proof {
            let one = all.take(1);
            assert(one.drop_last() == Seq::<EntryView>::empty());
            assert(chosen(one.drop_last()) is None);
            assert(one.last() == all[0]);
        }
        while i < candidates.len()
            invariant
                1 <= i <= candidates@.len(),
                best < i,
                all == candidates.deep_view(),
                chosen(all.take(i as int)) == Some(all[best as int]),
            decreases candidates.len() - i,
        {
            proof {
                let next = all.take(i + 1);
                assert(next.drop_last() == all.take(i as int));
                assert(next.last() == candidates@[i as int]@);
                assert(all[best as int] == candidates@[best as int]@);
            }
            if no_better(&candidates[best].container, &candidates[i].container) {
                best = i;
            }
            i = i + 1;
        }
        assert(all.take(all.len() as int) == all);
        Some(candidates[best].clone())
    }

    /// The best container.
    fn pick_tcp(candidates: &Vec<ManagedContainer>) -> (r: Option<ManagedContainer>)
        ensures
            r.deep_view() == chosen_container(candidates.deep_view()),
    {
        let ghost all = candidates.deep_view();
        if candidates.len() == 0 {
            return None;
        }
        let mut best: usize = 0;
        let mut i: usize = 1;
        proof {
            let one = all.take(1);
            assert(one.drop_last() == Seq::<ContainerView>::empty());
            assert(chosen_container(one.drop_last()) is None);
            assert(one.last() == all[0]);
        }
        while i < candidates.len()
            invariant
                1 <= i <= candidates@.len(),
                best < i,
                all == candidates.deep_view(),
                chosen_container(all.take(i as int)) == Some(all[best as int]),
            decreases candidates.len() - i,
        {
            proof {
                let next = all.take(i + 1);
                assert(next.drop_last() == all.take(i as int));
                assert(next.last() == candidates@[i as int]@);
                assert(all[best as int] == candidates@[best as int]@);
            }
            if no_better(&candidates[best], &candidates[i]) {
                best = i;
            }
            i = i + 1;
        }
        assert(all.take(all.len() as int) == all);
        Some(candidates[best].clone())
    }

    /// The entry that answers for `host`.
    fn find_entry(&self, host: &str) -> (r: Option<RouteEntry>)
        ensures
            r.deep_view() == entry_for(self@.routes, host@),
    {
        let ghost all = self@.routes;
        match self.routes.get(host) {
            Some(v) => {
                let e: Option<RouteEntry> = Self::pick(v);
                if e.is_some() {
                    return e;
                }
            },
            None => {},
        }
        let mut i: usize = 0;
        assert(all.skip(0) == all);
        while i < self.routes.len()
            invariant
                i <= all.len(),
                all == self@.routes,
                all == self.routes@,
                chosen(entries_of(all, host@)) is None,
                entries_above(all, host@) == entries_above(all.skip(i as int), host@),
            decreases all.len() - i,
        {
            assert(all.skip(i as int)[0] == all[i as int]);
            if statics::proper_suffix(self.routes.key(i).as_str(), host) {
                return Self::pick(self.routes.value(i));
            }
            assert(all.skip(i as int).skip(1) == all.skip(i + 1));
            i = i + 1;
        }
        None
    }

    /// The container that answers for `host`, and the port to use there. Static routes play no
    /// part.
    pub fn resolve(&self, host: &str) -> (r: Option<(ManagedContainer, u16)>)
        ensures
            r.deep_view() == self@.dynamic(host@),
    {
        match self.find_entry(host) {
            Some(e) => Some(resolved_port(e)),
            None => None,
        }
    }

    /// What `host` resolves to: a container by the whole host name, else a container by a host
    /// above it, else a static route by the whole name, else a static wildcard.
    pub fn resolve_with_static(&self, host: &str) -> (r: Option<RouteResult>)
        ensures
            r.deep_view() == self@.resolution(host@),
    {
        match self.resolve(host) {
            Some((c, port)) => Some(RouteResult::Dynamic(Box::new(c), port)),
            None => match self.static_routes.resolve(host) {
                Some(t) => Some(RouteResult::Static(t)),
                None => None,
            },
        }
    }

    /// The container behind a listening port.
    pub fn resolve_tcp(&self, listen_port: u16) -> (r: Option<ManagedContainer>)
        ensures
            r.deep_view() == chosen_container(behind(self@.tcp, listen_port)),
    {
        broadcast use vstd::std_specs::hash::group_hash_axioms;

        match self.tcp_listen.get(&listen_port) {
            Some(v) => Self::pick_tcp(v),
            None => None,
        }
    }

    /// The ports to listen on, each once, in no particular order.
    pub fn tcp_listen_ports(&self) -> (r: Vec<u16>)
        ensures
            r@.no_duplicates(),
            forall|port: u16| #[trigger] r@.contains(port) <==> self@.tcp.contains_key(port),
    {
        broadcast use vstd::std_specs::hash::group_hash_axioms;

        let ghost keys = vstd::std_specs::iter::IteratorSpec::remaining(
            &vstd::std_specs::hash::spec_keys_iter(&self.tcp_listen),
        );
        let ghost ports = keys.unref();
        let mut r: Vec<u16> = Vec::new();
        for port in it: self.tcp_listen.keys()
            invariant
                it.seq() == keys,
                ports == keys.unref(),
                r@ == ports.take(it.index() as int),
        {
            r.push(*port);
            assert(ports.take(it.index() + 1) == ports.take(it.index() as int).push(*port));
        }
        proof {
            assert(r@ == ports);
            assert(ports.to_set() == self.tcp_listen@.dom());
            assert forall|port: u16| #[trigger] r@.contains(port) <==> self@.tcp.contains_key(
                port,
            ) by {
                assert(ports.to_set().contains(port) <==> ports.contains(port));
            }
        }
        r
    }

    /// The containers in the table, as they stand there.
    fn list(&self) -> (r: Vec<ManagedContainer>)
        ensures
            r.deep_view() == listed(self@.routes),
    {
        let ghost all = self@.routes;
        let mut r: Vec<ManagedContainer> = Vec::new();
        let mut i: usize = 0;
        assert(all.take(0) == Seq::<(Seq<char>, Seq<EntryView>)>::empty());
        assert(r.deep_view() == listed(all.take(0)));
        while i < self.routes.len()
            invariant
                i <= all.len(),
                all == self@.routes,
                all == self.routes@,
                r.deep_view() == listed(all.take(i as int)),
            decreases all.len() - i,
        {
            let v: &Vec<RouteEntry> = self.routes.value(i);
            let ghost before = listed(all.take(i as int));
            let ghost here = all[i as int].1.map_values(|e: EntryView| e.container);
            proof {
                let next = all.take(i + 1);
                assert(next.drop_last() == all.take(i as int));
                assert(next.last() == all[i as int]);
                assert(here.take(0) == Seq::<ContainerView>::empty());
                assert(before + here.take(0) == before);
            }
            let mut j: usize = 0;
            while j < v.len()
                invariant
                    j <= v@.len(),
                    v.deep_view() == all[i as int].1,
                    here == all[i as int].1.map_values(|e: EntryView| e.container),
                    r.deep_view() == before + here.take(j as int),
                decreases v.len() - j,
            {
                let ghost so_far = r.deep_view();
                r.push(v[j].container.clone());
                proof {
                    assert(v.deep_view()[j as int] == v@[j as int]@);
                    assert(r.deep_view() == so_far.push(here[j as int]));
                    assert(here.take(j + 1) == here.take(j as int).push(here[j as int]));
                    assert(before + here.take(j + 1) == (before + here.take(j as int)).push(
                        here[j as int],
                    ));
                }
                j = j + 1;
            }
            assert(here.take(here.len() as int) == here);
            i = i + 1;
        }
        assert(all.take(all.len() as int) == all);
        r
    }

    /// The managed containers, each id once.
    pub fn containers(&self) -> (r: Vec<ManagedContainer>)
        ensures
            r.deep_view() == self@.containers(),
    {
        let all: Vec<ManagedContainer> = self.list();
        let ghost seq = all.deep_view();
        let mut r: Vec<ManagedContainer> = Vec::new();
        let mut i: usize = 0;
        assert(seq.take(0) == Seq::<ContainerView>::empty());
        assert(r.deep_view() == unique(seq.take(0)));
        while i < all.len()
            invariant
                i <= all@.len(),
                seq == all.deep_view(),
                r.deep_view() == unique(seq.take(i as int)),
            decreases all.len() - i,
        {
            proof {
                let next = seq.take(i + 1);
                assert(next.drop_last() == seq.take(i as int));
                assert(next.last() == all@[i as int]@);
            }
            push_unique(&mut r, &all[i]);
            i = i + 1;
        }
        assert(seq.take(seq.len() as int) == seq);
        r
    }

    /// The containers of a group, each id once.
    pub fn group_containers(&self, group: &str) -> (r: Vec<ManagedContainer>)
        ensures
            r.deep_view() == self@.group(group@),
    {
        let all: Vec<ManagedContainer> = self.list();
        let ghost seq = all.deep_view();
        let mut r: Vec<ManagedContainer> = Vec::new();
        let mut i: usize = 0;
        proof {
            reveal(Seq::filter);
            assert(seq.take(0) == Seq::<ContainerView>::empty());
            assert(seq.take(0).filter(in_group(group@)) == Seq::<ContainerView>::empty());
            assert(r.deep_view() == unique(seq.take(0).filter(in_group(group@))));
        }
        while i < all.len()
            invariant
                i <= all@.len(),
                seq == all.deep_view(),
                r.deep_view() == unique(seq.take(i as int).filter(in_group(group@))),
            decreases all.len() - i,
        {
            proof {
                reveal(Seq::filter);
                let done = seq.take(i as int).filter(in_group(group@));
                let next = seq.take(i + 1);
                assert(next.drop_last() == seq.take(i as int));
                assert(next.last() == all@[i as int]@);
                assert(done.push(next.last()).drop_last() == done);
            }
            if container::is_text(&all[i].group, group) {
                push_unique(&mut r, &all[i]);
            }
            i = i + 1;
        }
        assert(seq.take(seq.len() as int) == seq);
        r
    }

    /// The number of hosts in the table.
    pub fn len(&self) -> (r: usize)
        ensures
            r == self@.routes.len(),
    {
        self.routes.len()
    }

    /// Replaces the static routes.
    pub fn set_static_routes(&mut self, entries: &[StaticRouteEntry])
        ensures
            final(self)@ == (RouterView {
                routes: old(self)@.routes,
                tcp: old(self)@.tcp,
                statics: statics::static_table(entries.deep_view()),
            }),
    {
        self.static_routes = StaticRoutes::from_entries(entries);
    }

    /// The clashes of a wildcard with the hosts of the table.
    fn covered_hosts(&self, suffix: &str) -> (r: Vec<StaticConflict>)
        ensures
            r.deep_view() == covered(self@.routes, suffix@),
    {
        let ghost all = self@.routes;
        let ghost f = |e: (Seq<char>, Seq<EntryView>)| wildcard_conflict(suffix@, e.0);
        let mut r: Vec<StaticConflict> = Vec::new();
        let mut i: usize = 0;
        proof {
            reveal(Seq::filter_map);
            assert(all.take(0) == Seq::<(Seq<char>, Seq<EntryView>)>::empty());
            assert(r.deep_view() == all.take(0).filter_map(f));
        }
        while i < self.routes.len()
            invariant
                i <= all.len(),
                all == self@.routes,
                all == self.routes@,
                f == (|e: (Seq<char>, Seq<EntryView>)| wildcard_conflict(suffix@, e.0)),
                r.deep_view() == all.take(i as int).filter_map(f),
            decreases all.len() - i,
        {
            let ghost before = r.deep_view();
            proof {
                all.lemma_filter_map_take_succ(f, i as int);
            }
            let host: &str = self.routes.key(i).as_str();
            if text::ends_with(host, suffix) {
                r.push(StaticConflict::Wildcard(suffix.to_string(), host.to_string()));
                assert(r.deep_view() == before.push(ConflictView::Wildcard(suffix@, host@)));
            }
            i = i + 1;
        }
        assert(all.take(all.len() as int) == all);
        r
    }

    /// The clashes between static routes and hosts of the dynamic table. In each of them the
    /// container wins.
    pub fn static_conflicts(&self) -> (r: Vec<StaticConflict>)
        ensures
            r.deep_view() == self@.conflicts(),
    {
        let ghost exact = self@.statics.exact;
        let ghost wildcard = self@.statics.wildcard;
        let ghost routes = self@.routes;
        let ghost f = |e: (Seq<char>, statics::StaticTargetView)| exact_conflict(routes, e.0);
        let mut r: Vec<StaticConflict> = Vec::new();
        let mut i: usize = 0;
        proof {
            reveal(Seq::filter_map);
            assert(exact.take(0) == Seq::<(Seq<char>, statics::StaticTargetView)>::empty());
            assert(r.deep_view() == exact.take(0).filter_map(f));
        }
        while i < self.static_routes.exact.len()
            invariant
                i <= exact.len(),
                exact == self.static_routes.exact@,
                routes == self.routes@,
                f == (|e: (Seq<char>, statics::StaticTargetView)| exact_conflict(routes, e.0)),
                r.deep_view() == exact.take(i as int).filter_map(f),
            decreases exact.len() - i,
        {
            let ghost before = r.deep_view();
            proof {
                exact.lemma_filter_map_take_succ(f, i as int);
            }
            let host: &str = self.static_routes.exact.key(i).as_str();
            if self.routes.contains_key(host) {
                r.push(StaticConflict::Exact(host.to_string()));
                assert(r.deep_view() == before.push(ConflictView::Exact(host@)));
            }
            i = i + 1;
        }
        assert(exact.take(exact.len() as int) == exact);
        let ghost first = r.deep_view();
        let mut j: usize = 0;
        proof {
            assert(wildcard.take(0) == Seq::<(Seq<char>, statics::StaticTargetView)>::empty());
            assert(first + wildcard_conflicts(routes, wildcard.take(0)) == first);
        }
        while j < self.static_routes.wildcard.len()
            invariant
                j <= wildcard.len(),
                wildcard == self.static_routes.wildcard.deep_view(),
                routes == self@.routes,
                r.deep_view() == first + wildcard_conflicts(routes, wildcard.take(j as int)),
            decreases wildcard.len() - j,
        {
            let ghost before = r.deep_view();
            proof {
                let next = wildcard.take(j + 1);
                assert(next.drop_last() == wildcard.take(j as int));
                assert(next.last().0 == self.static_routes.wildcard@[j as int].0@);
            }
            let mut more: Vec<StaticConflict> = self.covered_hosts(
                self.static_routes.wildcard[j].0.as_str(),
            );
            let ghost added = more.deep_view();
            r.append(&mut more);
            proof {
                assert(r.deep_view() == before + added);
                assert(before + added == first + (wildcard_conflicts(routes, wildcard.take(j as int))
                    + added));
            }
            j = j + 1;
        }
        assert(wildcard.take(wildcard.len() as int) == wildcard);
        r
    }

    /// The static routes.
    pub fn static_routes(&self) -> (r: &StaticRoutes)
        ensures
            r@ == self@.statics,
    {
        &self.static_routes
    }
}

} // verus!
