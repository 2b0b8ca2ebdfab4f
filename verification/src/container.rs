//! Managed containers.

use crate::number;
use crate::text;
use crate::time::Duration;
use vstd::prelude::*;
use vstd::string::StringExecFns;

verus! {

// ---------------------------------------------------------------------------------------------
// The parts of a container
// ---------------------------------------------------------------------------------------------

/// One compose dependency.
#[derive(Debug)]
pub struct Dependency {
    /// The compose service that is waited for.
    pub service: String,
    /// What is waited for: `service_started`, `service_healthy` and so on.
    pub condition: String,
}

/// The mathematical value of a `Dependency`.
#[verifier::ext_equal]
pub struct DependencyView {
    pub service: Seq<char>,
    pub condition: Seq<char>,
}

impl View for Dependency {
    type V = DependencyView;

    open spec fn view(&self) -> DependencyView {
        DependencyView { service: self.service@, condition: self.condition@ }
    }
}

impl DeepView for Dependency {
    type V = DependencyView;

    open spec fn deep_view(&self) -> DependencyView {
        self@
    }
}

impl Clone for Dependency {
    fn clone(&self) -> (r: Self)
        ensures
            r@ == self@,
    {
        Dependency { service: self.service.clone(), condition: self.condition.clone() }
    }
}

/// A forwarded TCP port.
#[derive(Debug, Clone, Copy, PartialEq, Eq, Structural)]
pub struct TcpExpose {
    /// The port that is listened on.
    pub listen_port: u16,
    /// The port of the container.
    pub container_port: u16,
}

impl DeepView for TcpExpose {
    type V = TcpExpose;

    open spec fn deep_view(&self) -> TcpExpose {
        *self
    }
}

/// A host that a container answers for.
#[derive(Debug, PartialEq, Eq)]
pub struct Route {
    /// The host name.
    pub host: String,
    /// The port that its requests go to; `None` for the container's own port.
    pub port: Option<u16>,
}

/// The mathematical value of a `Route`.
#[verifier::ext_equal]
pub struct RouteView {
    pub host: Seq<char>,
    pub port: Option<u16>,
}

impl View for Route {
    type V = RouteView;

    open spec fn view(&self) -> RouteView {
        RouteView { host: self.host@, port: self.port }
    }
}

impl DeepView for Route {
    type V = RouteView;

    open spec fn deep_view(&self) -> RouteView {
        self@
    }
}

impl Clone for Route {
    fn clone(&self) -> (r: Self)
        ensures
            r@ == self@,
    {
        Route { host: self.host.clone(), port: self.port }
    }
}

// ---------------------------------------------------------------------------------------------
// Containers
// ---------------------------------------------------------------------------------------------

/// A container under management.
#[derive(Debug)]
pub struct ManagedContainer {
    /// The container's id.
    pub id: String,
    /// The container's name, with its leading `/`.
    pub name: String,
    /// The port that requests go to; `None` for a container that is only depended on.
    pub port: Option<u16>,
    /// The forwarded TCP ports.
    pub tcp_expose: Vec<TcpExpose>,
    /// The group that the container is started with.
    pub group: Option<String>,
    /// How long the container may be idle.
    pub session_duration: Duration,
    /// How long the container may take to start.
    pub startup_timeout: Duration,
    /// The path of the health check.
    pub healthcheck_path: Option<String>,
    /// The port of the health check.
    pub healthcheck_port: Option<u16>,
    /// The status codes that the health check accepts.
    pub healthcheck_status: Option<Vec<u16>>,
    /// The hosts that the container answers for.
    pub routes: Vec<Route>,
    /// Host names that only become network aliases.
    pub aliases: Vec<String>,
    /// The container's address.
    pub ip: Option<String>,
    /// Whether the container runs.
    pub running: bool,
    /// When the container was created, in seconds of the Unix clock.
    pub created: Option<i64>,
    /// What the container waits for.
    pub depends_on: Vec<Dependency>,
    /// The compose project.
    pub compose_project: Option<String>,
    /// The compose service.
    pub compose_service: Option<String>,
    /// Whether the container is never stopped for being idle.
    pub always_on: bool,
}

/// The mathematical value of a `ManagedContainer`.
#[verifier::ext_equal]
pub struct ContainerView {
    pub id: Seq<char>,
    pub name: Seq<char>,
    pub port: Option<u16>,
    pub tcp_expose: Seq<TcpExpose>,
    pub group: Option<Seq<char>>,
    pub session_duration: Duration,
    pub startup_timeout: Duration,
    pub healthcheck_path: Option<Seq<char>>,
    pub healthcheck_port: Option<u16>,
    pub healthcheck_status: Option<Seq<u16>>,
    pub routes: Seq<RouteView>,
    pub aliases: Seq<Seq<char>>,
    pub ip: Option<Seq<char>>,
    pub running: bool,
    pub created: Option<i64>,
    pub depends_on: Seq<DependencyView>,
    pub compose_project: Option<Seq<char>>,
    pub compose_service: Option<Seq<char>>,
    pub always_on: bool,
}

impl View for ManagedContainer {
    type V = ContainerView;

    open spec fn view(&self) -> ContainerView {
        ContainerView {
            id: self.id@,
            name: self.name@,
            port: self.port,
            tcp_expose: self.tcp_expose.deep_view(),
            group: self.group.deep_view(),
            session_duration: self.session_duration,
            startup_timeout: self.startup_timeout,
            healthcheck_path: self.healthcheck_path.deep_view(),
            healthcheck_port: self.healthcheck_port,
            healthcheck_status: self.healthcheck_status.deep_view(),
            routes: self.routes.deep_view(),
            aliases: self.aliases.deep_view(),
            ip: self.ip.deep_view(),
            running: self.running,
            created: self.created,
            depends_on: self.depends_on.deep_view(),
            compose_project: self.compose_project.deep_view(),
            compose_service: self.compose_service.deep_view(),
            always_on: self.always_on,
        }
    }
}

impl DeepView for ManagedContainer {
    type V = ContainerView;

    open spec fn deep_view(&self) -> ContainerView {
        self@
    }
}

/// Copies an optional text.
pub fn copy_text(s: &Option<String>) -> (r: Option<String>)
    ensures
        r.deep_view() == s.deep_view(),
{
    match s {
        Some(t) => Some(t.clone()),
        None => None,
    }
}

/// Copies a list of texts.
pub fn copy_texts(v: &Vec<String>) -> (r: Vec<String>)
    ensures
        r.deep_view() == v.deep_view(),
{
    let mut r: Vec<String> = Vec::new();
    let mut i: usize = 0;
    while i < v.len()
        invariant
            i <= v.len(),
            r.deep_view() == v.deep_view().take(i as int),
        decreases v.len() - i,
    {
        let ghost before = r.deep_view();
        r.push(v[i].clone());
        assert(r.deep_view() == before.push(v@[i as int]@));
        i = i + 1;
    }
    r
}

/// Copies a list of routes.
fn copy_routes(v: &Vec<Route>) -> (r: Vec<Route>)
    ensures
        r.deep_view() == v.deep_view(),
{
    let mut r: Vec<Route> = Vec::new();
    let mut i: usize = 0;
    while i < v.len()
        invariant
            i <= v.len(),
            r.deep_view() == v.deep_view().take(i as int),
        decreases v.len() - i,
    {
        let ghost before = r.deep_view();
        r.push(v[i].clone());
        assert(r.deep_view() == before.push(v@[i as int]@));
        i = i + 1;
    }
    r
}

/// Copies a list of dependencies.
fn copy_dependencies(v: &Vec<Dependency>) -> (r: Vec<Dependency>)
    ensures
        r.deep_view() == v.deep_view(),
{
    let mut r: Vec<Dependency> = Vec::new();
    let mut i: usize = 0;
    while i < v.len()
        invariant
            i <= v.len(),
            r.deep_view() == v.deep_view().take(i as int),
        decreases v.len() - i,
    {
        let ghost before = r.deep_view();
        r.push(v[i].clone());
        assert(r.deep_view() == before.push(v@[i as int]@));
        i = i + 1;
    }
    r
}

/// Copies a list of forwarded ports.
fn copy_exposes(v: &Vec<TcpExpose>) -> (r: Vec<TcpExpose>)
    ensures
        r.deep_view() == v.deep_view(),
{
    let mut r: Vec<TcpExpose> = Vec::new();
    let mut i: usize = 0;
    while i < v.len()
        invariant
            i <= v.len(),
            r.deep_view() == v.deep_view().take(i as int),
        decreases v.len() - i,
    {
        let ghost before = r.deep_view();
        r.push(v[i]);
        assert(r.deep_view() == before.push(v@[i as int]));
        i = i + 1;
    }
    r
}

/// Copies an optional list of status codes.
fn copy_statuses(v: &Option<Vec<u16>>) -> (r: Option<Vec<u16>>)
    ensures
        r.deep_view() == v.deep_view(),
{
    match v {
        Some(statuses) => {
            let r: Vec<u16> = statuses.clone();
            assert(r.deep_view() == statuses.deep_view());
            Some(r)
        },
        None => None,
    }
}

impl Clone for ManagedContainer {
    fn clone(&self) -> (r: Self)
        ensures
            r@ == self@,
    {
        ManagedContainer {
            id: self.id.clone(),
            name: self.name.clone(),
            port: self.port,
            tcp_expose: copy_exposes(&self.tcp_expose),
            group: copy_text(&self.group),
            session_duration: self.session_duration,
            startup_timeout: self.startup_timeout,
            healthcheck_path: copy_text(&self.healthcheck_path),
            healthcheck_port: self.healthcheck_port,
            healthcheck_status: copy_statuses(&self.healthcheck_status),
            routes: copy_routes(&self.routes),
            aliases: copy_texts(&self.aliases),
            ip: copy_text(&self.ip),
            running: self.running,
            created: self.created,
            depends_on: copy_dependencies(&self.depends_on),
            compose_project: copy_text(&self.compose_project),
            compose_service: copy_text(&self.compose_service),
            always_on: self.always_on,
        }
    }
}

/// Copies a list of containers.
pub fn copy_containers(v: &Vec<ManagedContainer>) -> (r: Vec<ManagedContainer>)
    ensures
        r.deep_view() == v.deep_view(),
{
    let mut r: Vec<ManagedContainer> = Vec::new();
    let mut i: usize = 0;
    while i < v.len()
        invariant
            i <= v.len(),
            r.deep_view() == v.deep_view().take(i as int),
        decreases v.len() - i,
    {
        let ghost before = r.deep_view();
        r.push(v[i].clone());
        assert(r.deep_view() == before.push(v@[i as int]@));
        i = i + 1;
    }
    r
}

/// Two optional texts are equal.
pub fn same_text(a: &Option<String>, b: &Option<String>) -> (r: bool)
    ensures
        r == (a.deep_view() == b.deep_view()),
{
    match (a, b) {
        (Some(x), Some(y)) => text::equal(x.as_str(), y.as_str()),
        (None, None) => true,
        _ => false,
    }
}

/// An optional text is there and is `s`.
pub fn is_text(a: &Option<String>, s: &str) -> (r: bool)
    ensures
        r == (a.deep_view() == Some(s@)),
{
    match a {
        Some(x) => text::equal(x.as_str(), s),
        None => false,
    }
}

/// `host:port`.
pub open spec fn host_port(host: Seq<char>, port: u16) -> Seq<char> {
    host + seq![':'] + number::decimal_of(port as nat)
}

/// Writes `host:port`.
pub fn join_host_port(host: &str, port: u16) -> (r: String)
    ensures
        r@ == host_port(host@, port),
{
    proof {
        reveal_strlit(":");
    }
    let mut r: String = host.to_string();
    r.append(":");
    assert(":"@ == seq![':']);
    r.append(number::decimal(port).as_str());
    r
}

impl ContainerView {
    /// Where requests for the container go: its address, or its id while the address is unknown;
    /// then its port, where it has one.
    pub open spec fn target(self) -> Seq<char> {
        let host = match self.ip {
            Some(ip) => ip,
            None => self.id,
        };
        match self.port {
            Some(port) => host_port(host, port),
            None => host,
        }
    }

    /// `c` is the container that the dependency on `service` means.
    pub open spec fn is_dependency(self, service: Seq<char>, c: ContainerView) -> bool {
        c.compose_project == self.compose_project && c.compose_service == Some(service)
    }
}

/// The first of `containers` with the property.
pub open spec fn first_such(
    containers: Seq<ContainerView>,
    p: spec_fn(ContainerView) -> bool,
) -> Option<ContainerView>
    decreases containers.len(),
{
    if containers.len() == 0 {
        None
    } else if p(containers[0]) {
        Some(containers[0])
    } else {
        first_such(containers.skip(1), p)
    }
}

/// `first_such` finds the element at `i` where the property holds there and at no earlier place.
pub proof fn lemma_first_such_at(
    containers: Seq<ContainerView>,
    p: spec_fn(ContainerView) -> bool,
    i: int,
)
    requires
        0 <= i < containers.len(),
        p(containers[i]),
        forall|j: int| 0 <= j < i ==> !p(#[trigger] containers[j]),
    ensures
        first_such(containers, p) == Some(containers[i]),
    decreases containers.len(),
{
    if i > 0 {
        assert(!p(containers[0]));
        let rest = containers.skip(1);
        assert forall|j: int| 0 <= j < i - 1 implies !p(#[trigger] rest[j]) by {
            assert(rest[j] == containers[j + 1]);
        }
        lemma_first_such_at(rest, p, i - 1);
    }
}

/// `first_such` finds nothing where the property holds nowhere.
pub proof fn lemma_first_such_none(
    containers: Seq<ContainerView>,
    p: spec_fn(ContainerView) -> bool,
)
    requires
        forall|j: int| 0 <= j < containers.len() ==> !p(#[trigger] containers[j]),
    ensures
        first_such(containers, p) is None,
    decreases containers.len(),
{
    if containers.len() > 0 {
        assert(!p(containers[0]));
        let rest = containers.skip(1);
        assert forall|j: int| 0 <= j < rest.len() implies !p(#[trigger] rest[j]) by {
            assert(rest[j] == containers[j + 1]);
        }
        lemma_first_such_none(rest, p);
    }
}

/// What `first_such` finds is one of the containers and has the property.
pub proof fn lemma_first_such(containers: Seq<ContainerView>, p: spec_fn(ContainerView) -> bool)
    ensures
        match first_such(containers, p) {
            Some(c) => p(c) && containers.contains(c),
            None => forall|c: ContainerView| #[trigger] containers.contains(c) ==> !p(c),
        },
    decreases containers.len(),
{
    if containers.len() > 0 {
        let rest = containers.skip(1);
        lemma_first_such(rest, p);
        if p(containers[0]) {
        } else {
            match first_such(rest, p) {
                Some(c) => {
                    let i = rest.index_of(c);
                    assert(containers[i + 1] == c);
                },
                None => {
                    assert forall|c: ContainerView| #[trigger] containers.contains(c) implies !p(
                        c,
                    ) by {
                        let i = containers.index_of(c);
                        if i > 0 {
                            assert(rest[i - 1] == c);
                            assert(rest.contains(c));
                        }
                    }
                },
            }
        }
    }
}

impl ContainerView {
    /// The container that the dependency on `service` means: the first of the same compose project
    /// with that service name.
    pub open spec fn dependency(
        self,
        service: Seq<char>,
        containers: Seq<ContainerView>,
    ) -> Option<ContainerView> {
        first_such(containers, |c: ContainerView| self.is_dependency(service, c))
    }

    /// The containers that this one depends on, in the order of its label.
    pub open spec fn dependencies(self, containers: Seq<ContainerView>) -> Seq<ContainerView> {
        self.depends_on.filter_map(|d: DependencyView| self.dependency(d.service, containers))
    }
}

impl ManagedContainer {
    /// Whether the container runs.
    pub fn is_running(&self) -> (r: bool)
        ensures
            r == self@.running,
    {
        self.running
    }

    /// Where requests for the container go.
    pub fn target_addr(&self) -> (r: String)
        ensures
            r@ == self@.target(),
    {
        let host: &str = match &self.ip {
            Some(ip) => ip.as_str(),
            None => self.id.as_str(),
        };
        match self.port {
            Some(port) => join_host_port(host, port),
            None => host.to_string(),
        }
    }

    /// The position of the container that the dependency on `service` means.
    pub(crate) fn find_dependency(&self, service: &str, containers: &[ManagedContainer]) -> (r: Option<usize>)
        ensures
            match r {
                Some(i) => i < containers@.len() && self@.dependency(
                    service@,
                    containers.deep_view(),
                ) == Some(containers@[i as int]@),
                None => self@.dependency(service@, containers.deep_view()) is None,
            },
    {
        let ghost p = |c: ContainerView| self@.is_dependency(service@, c);
        let mut i: usize = 0;
        while i < containers.len()
            invariant
                i <= containers@.len(),
                p == (|c: ContainerView| self@.is_dependency(service@, c)),
                forall|j: int| 0 <= j < i ==> !p(#[trigger] containers.deep_view()[j]),
            decreases containers.len() - i,
        {
            let c: &ManagedContainer = &containers[i];
            assert(containers.deep_view()[i as int] == c@);
            if same_text(&c.compose_project, &self.compose_project) && is_text(
                &c.compose_service,
                service,
            ) {
                proof {
                    lemma_first_such_at(containers.deep_view(), p, i as int);
                }
                return Some(i);
            }
            i = i + 1;
        }
        proof {
            lemma_first_such_none(containers.deep_view(), p);
        }
        None
    }

    /// The containers that this one depends on: for each dependency of its label the first
    /// container of the same compose project with that service name. Dependencies on services that
    /// are not there are skipped.
    pub fn resolve_dependencies(&self, containers: &[ManagedContainer]) -> (r: Vec<
        ManagedContainer,
    >)
        ensures
            r.deep_view() == self@.dependencies(containers.deep_view()),
    {
        let ghost all = self@.depends_on;
        let ghost f = |d: DependencyView| self@.dependency(d.service, containers.deep_view());
        let mut r: Vec<ManagedContainer> = Vec::new();
        let mut i: usize = 0;
        proof {
            reveal(Seq::filter_map);
            assert(all.take(0) == Seq::<DependencyView>::empty());
            assert(r.deep_view() == all.take(0).filter_map(f));
        }
        while i < self.depends_on.len()
            invariant
                i <= self.depends_on.len(),
                all == self@.depends_on,
                f == (|d: DependencyView| self@.dependency(d.service, containers.deep_view())),
                r.deep_view() == all.take(i as int).filter_map(f),
            decreases self.depends_on.len() - i,
        {
            let ghost before = r.deep_view();
            proof {
                all.lemma_filter_map_take_succ(f, i as int);
                assert(all[i as int] == self.depends_on@[i as int]@);
            }
            match self.find_dependency(self.depends_on[i].service.as_str(), containers) {
                Some(k) => {
                    r.push(containers[k].clone());
                    assert(r.deep_view() == before.push(containers@[k as int]@));
                },
                None => {},
            }
            i = i + 1;
        }
        assert(all.take(all.len() as int) == all);
        r
    }
}

} // verus!
