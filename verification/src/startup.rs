//! Starting containers: what is asked, waited for and given up on.

use crate::config;
use crate::container;
use crate::container::{ContainerView, ManagedContainer};
use crate::level_laws;
use crate::levels;
use crate::router;
use crate::router::{Router, RouterView};
use crate::starts;
use crate::starts::{LevelAction, LevelState};
use crate::text;
use crate::time::Duration;
use vstd::prelude::*;
use vstd::string::StringExecFns;

verus! {

// ---------------------------------------------------------------------------------------------
// Addresses and checks
// ---------------------------------------------------------------------------------------------

/// `ip:port`, or `ip` alone without a port.
pub open spec fn address(ip: Seq<char>, port: Option<u16>) -> Seq<char> {
    match port {
        Some(p) => container::host_port(ip, p),
        None => ip,
    }
}

/// Writes the address of an IP and an optional port.
pub fn addr_with_port(ip: &str, port: Option<u16>) -> (r: String)
    ensures
        r@ == address(ip@, port),
{
    match port {
        Some(p) => container::join_host_port(ip, p),
        None => ip.to_string(),
    }
}

/// The port that is used: the one asked for, or else the container's own.
pub open spec fn port_for(c: ContainerView, port: Option<u16>) -> Option<u16> {
    match port {
        Some(p) => Some(p),
        None => c.port,
    }
}

/// The URL of `path` at `addr`; leading slashes of the path count once.
pub open spec fn http_url(addr: Seq<char>, path: Seq<char>) -> Seq<char> {
    "http://"@ + addr + "/"@ + text::trim_leading(path, '/')
}

/// Writes the URL of `path` at `addr`.
pub fn join_url(addr: &str, path: &str) -> (r: String)
    ensures
        r@ == http_url(addr@, path@),
{
    let mut r: String = "http://".to_string();
    r.append(addr);
    r.append("/");
    r.append(text::trim_start_matches(path, '/'));
    r
}

/// The URL that the health check of a container at `ip` asks for. It goes to the port of the health
/// check, or else to `port`.
pub open spec fn health_url(c: ContainerView, ip: Seq<char>, port: u16) -> Seq<char> {
    let p = match c.healthcheck_port {
        Some(p) => p,
        None => port,
    };
    let path = match c.healthcheck_path {
        Some(path) => path,
        None => "/"@,
    };
    http_url(container::host_port(ip, p), path)
}

/// Writes the URL of the health check.
fn join_health_url(c: &ManagedContainer, ip: &str, port: u16) -> (r: String)
    ensures
        r@ == health_url(c@, ip@, port),
{
    let p: u16 = match c.healthcheck_port {
        Some(p) => p,
        None => port,
    };
    let path: &str = match &c.healthcheck_path {
        Some(path) => path.as_str(),
        None => "/",
    };
    let addr: String = container::join_host_port(ip, p);
    join_url(addr.as_str(), path)
}

/// The answer to a health check is one of those that are accepted; `None` is no answer.
pub open spec fn accepted(status: Option<u16>, allowed: Seq<u16>) -> bool {
    status matches Some(s) && allowed.contains(s)
}

/// Whether the answer to a health check is accepted.
pub fn status_ok(status: Option<u16>, allowed: &Vec<u16>) -> (r: bool)
    ensures
        r == accepted(status, allowed@),
{
    match status {
        None => false,
        Some(s) => {
            let mut i: usize = 0;
            while i < allowed.len()
                invariant
                    i <= allowed@.len(),
                    status == Some(s),
                    forall|j: int| 0 <= j < i ==> allowed@[j] != s,
                decreases allowed.len() - i,
            {
                if allowed[i] == s {
                    return true;
                }
                i = i + 1;
            }
            false
        },
    }
}

// ---------------------------------------------------------------------------------------------
// Starting one container
// ---------------------------------------------------------------------------------------------

/// The pause between two looks at a container that is starting.
pub open spec fn poll_pause() -> Duration {
    Duration { secs: 0, nanos: 500_000_000 }
}

/// Why a container is not ready.
#[derive(Debug, Clone, Copy, PartialEq, Eq, Structural)]
pub enum StartError {
    /// The Docker API failed.
    Docker,
    /// The time to start was over.
    NotReady,
    /// The time to become healthy was over.
    NotHealthy,
}

/// How far the start of a container has come. A deadline is a clock reading in nanoseconds.
#[derive(Debug)]
pub enum StartState {
    /// It was asked whether the container runs.
    AskRunning,
    /// The container ran already; its address was asked for.
    AskAddress,
    /// The container was told to start.
    Starting,
    /// It was asked whether the container runs by now.
    AwaitRunning { deadline: u128 },
    /// The container runs; its address was asked for.
    AwaitAddress { deadline: u128 },
    /// The port was tried.
    AwaitPort { deadline: u128, ip: String, port: u16 },
    /// The port is open; the health check was made.
    AwaitHealth { deadline: u128, addr: String },
    /// A pause before the next look; `running` tells whether the container was seen running.
    Pausing { deadline: u128, running: bool },
    /// The start is over, one way or the other.
    Finished,
}

/// What happened in the state before.
#[derive(Debug)]
pub enum StartEvent {
    /// Whether the container runs.
    Running(bool),
    /// The Docker API failed to say or do what it was asked for.
    DockerFailed,
    /// The container's address, where it has one.
    Address(Option<String>),
    /// The container was told to start; the clock.
    Started(Duration),
    /// Whether the port is open.
    PortOpen(bool),
    /// The status of the answer to the health check, where there was one.
    Status(Option<u16>),
    /// The pause is over; the clock.
    Paused(Duration),
}

/// What is to be done next.
#[derive(Debug)]
pub enum StartAction {
    /// Ask whether the container runs.
    CheckRunning,
    /// Ask for the container's address.
    ResolveAddress,
    /// Tell the container to start.
    Start,
    /// Try to connect to this address.
    ProbePort(String),
    /// Ask for this URL.
    CheckHealth(String),
    /// Pause this long.
    Pause(Duration),
    /// The container is ready at this address.
    Ready(String),
    /// The container is not ready.
    Fail(StartError),
}

/// The mathematical value of a `StartState`.
#[verifier::ext_equal]
pub enum StartStateView {
    AskRunning,
    AskAddress,
    Starting,
    AwaitRunning { deadline: nat },
    AwaitAddress { deadline: nat },
    AwaitPort { deadline: nat, ip: Seq<char>, port: u16 },
    AwaitHealth { deadline: nat, addr: Seq<char> },
    Pausing { deadline: nat, running: bool },
    Finished,
}

impl View for StartState {
    type V = StartStateView;

    open spec fn view(&self) -> StartStateView {
        match self {
            StartState::AskRunning => StartStateView::AskRunning,
            StartState::AskAddress => StartStateView::AskAddress,
            StartState::Starting => StartStateView::Starting,
            StartState::AwaitRunning { deadline } => StartStateView::AwaitRunning {
                deadline: *deadline as nat,
            },
            StartState::AwaitAddress { deadline } => StartStateView::AwaitAddress {
                deadline: *deadline as nat,
            },
            StartState::AwaitPort { deadline, ip, port } => StartStateView::AwaitPort {
                deadline: *deadline as nat,
                ip: ip@,
                port: *port,
            },
            StartState::AwaitHealth { deadline, addr } => StartStateView::AwaitHealth {
                deadline: *deadline as nat,
                addr: addr@,
            },
            StartState::Pausing { deadline, running } => StartStateView::Pausing {
                deadline: *deadline as nat,
                running: *running,
            },
            StartState::Finished => StartStateView::Finished,
        }
    }
}

/// The mathematical value of a `StartEvent`.
#[verifier::ext_equal]
pub enum StartEventView {
    Running(bool),
    DockerFailed,
    Address(Option<Seq<char>>),
    Started(Duration),
    PortOpen(bool),
    Status(Option<u16>),
    Paused(Duration),
}

impl View for StartEvent {
    type V = StartEventView;

    open spec fn view(&self) -> StartEventView {
        match self {
            StartEvent::Running(b) => StartEventView::Running(*b),
            StartEvent::DockerFailed => StartEventView::DockerFailed,
            StartEvent::Address(ip) => StartEventView::Address(ip.deep_view()),
            StartEvent::Started(now) => StartEventView::Started(*now),
            StartEvent::PortOpen(b) => StartEventView::PortOpen(*b),
            StartEvent::Status(s) => StartEventView::Status(*s),
            StartEvent::Paused(now) => StartEventView::Paused(*now),
        }
    }
}

/// The mathematical value of a `StartAction`.
#[verifier::ext_equal]
pub enum StartActionView {
    CheckRunning,
    ResolveAddress,
    Start,
    ProbePort(Seq<char>),
    CheckHealth(Seq<char>),
    Pause(Duration),
    Ready(Seq<char>),
    Fail(StartError),
}

impl View for StartAction {
    type V = StartActionView;

    open spec fn view(&self) -> StartActionView {
        match self {
            StartAction::CheckRunning => StartActionView::CheckRunning,
            StartAction::ResolveAddress => StartActionView::ResolveAddress,
            StartAction::Start => StartActionView::Start,
            StartAction::ProbePort(addr) => StartActionView::ProbePort(addr@),
            StartAction::CheckHealth(url) => StartActionView::CheckHealth(url@),
            StartAction::Pause(d) => StartActionView::Pause(*d),
            StartAction::Ready(addr) => StartActionView::Ready(addr@),
            StartAction::Fail(e) => StartActionView::Fail(*e),
        }
    }
}

/// The address in a container's entry, or else its id.
pub open spec fn known_host(c: ContainerView) -> Seq<char> {
    match c.ip {
        Some(ip) => ip,
        None => c.id,
    }
}

/// A pause before the next look.
pub open spec fn pause(deadline: nat, running: bool) -> (StartStateView, StartActionView) {
    (StartStateView::Pausing { deadline, running }, StartActionView::Pause(poll_pause()))
}

/// The end of a start.
pub open spec fn ready(addr: Seq<char>) -> (StartStateView, StartActionView) {
    (StartStateView::Finished, StartActionView::Ready(addr))
}

/// The next look at a container, unless the deadline has come.
pub open spec fn look(now: Duration, deadline: nat, running: bool) -> (
    StartStateView,
    StartActionView,
) {
    if now.total() >= deadline {
        (StartStateView::Finished, StartActionView::Fail(StartError::NotReady))
    } else if running {
        (StartStateView::AwaitAddress { deadline }, StartActionView::ResolveAddress)
    } else {
        (StartStateView::AwaitRunning { deadline }, StartActionView::CheckRunning)
    }
}

/// The next step of a start.
///
/// A container that runs is ready at its address; where that cannot be asked for, at the one that
/// its entry holds. Another one is told to start, and looked at until it runs, its port is open and its health
/// check is accepted, each where it has one; or until its time to start is over.
pub open spec fn start_next(
    c: ContainerView,
    port: Option<u16>,
    state: StartStateView,
    event: StartEventView,
) -> (StartStateView, StartActionView) {
    match (state, event) {
        (StartStateView::AskRunning, StartEventView::Running(true)) => (
            StartStateView::AskAddress,
            StartActionView::ResolveAddress,
        ),
        (StartStateView::AskRunning, StartEventView::Running(false)) => (
            StartStateView::Starting,
            StartActionView::Start,
        ),
        (StartStateView::AskAddress, StartEventView::Address(Some(ip))) => ready(
            address(ip, port_for(c, port)),
        ),
        (StartStateView::AskAddress, StartEventView::Address(None)) => ready(
            address(known_host(c), port_for(c, port)),
        ),
        (StartStateView::Starting, StartEventView::Started(now)) => look(
            now,
            now.total() + c.startup_timeout.total(),
            false,
        ),
        (StartStateView::AwaitRunning { deadline }, StartEventView::Running(true)) => (
            StartStateView::AwaitAddress { deadline },
            StartActionView::ResolveAddress,
        ),
        (StartStateView::AwaitRunning { deadline }, StartEventView::Running(false)) => pause(
            deadline,
            false,
        ),
        (
            StartStateView::AwaitAddress { deadline },
            StartEventView::Address(Some(ip)),
        ) => match port_for(c, port) {
            None => ready(ip),
            Some(p) => (
                StartStateView::AwaitPort { deadline, ip, port: p },
                StartActionView::ProbePort(container::host_port(ip, p)),
            ),
        },
        (StartStateView::AwaitAddress { deadline }, StartEventView::Address(None)) => pause(
            deadline,
            true,
        ),
        (
            StartStateView::AwaitPort { deadline, ip, port: p },
            StartEventView::PortOpen(true),
        ) => match c.healthcheck_status {
            None => ready(container::host_port(ip, p)),
            Some(_) => (
                StartStateView::AwaitHealth { deadline, addr: container::host_port(ip, p) },
                StartActionView::CheckHealth(health_url(c, ip, p)),
            ),
        },
        (
            StartStateView::AwaitPort { deadline, ip, port: p },
            StartEventView::PortOpen(false),
        ) => pause(deadline, true),
        (
            StartStateView::AwaitHealth { deadline, addr },
            StartEventView::Status(status),
        ) => match c.healthcheck_status {
            Some(allowed) if !accepted(status, allowed) => pause(deadline, true),
            _ => ready(addr),
        },
        (StartStateView::Pausing { deadline, running }, StartEventView::Paused(now)) => look(
            now,
            deadline,
            running,
        ),
        _ => (StartStateView::Finished, StartActionView::Fail(StartError::Docker)),
    }
}

/// Pauses before the next look.
fn pause_start(deadline: u128, running: bool) -> (r: (StartState, StartAction))
    ensures
        (r.0@, r.1@) == pause(deadline as nat, running),
{
    let half: Duration = Duration { secs: 0, nanos: 500_000_000 };
    (StartState::Pausing { deadline, running }, StartAction::Pause(half))
}

/// Looks at a container again, unless the deadline has come.
fn look_again(now: Duration, deadline: u128, running: bool) -> (r: (StartState, StartAction))
    ensures
        (r.0@, r.1@) == look(now, deadline as nat, running),
{
    if now.as_nanos() >= deadline {
        (StartState::Finished, StartAction::Fail(StartError::NotReady))
    } else if running {
        (StartState::AwaitAddress { deadline }, StartAction::ResolveAddress)
    } else {
        (StartState::AwaitRunning { deadline }, StartAction::CheckRunning)
    }
}

/// Begins the start of a container.
pub fn ensure_started_single() -> (r: (StartState, StartAction))
    ensures
        r.0@ == StartStateView::AskRunning,
        r.1@ == StartActionView::CheckRunning,
{
    (StartState::AskRunning, StartAction::CheckRunning)
}

/// Goes on with the start of a container. `port` is the port to use; `None` for the container's
/// own.
pub fn ensure_started_step(
    c: &ManagedContainer,
    port: Option<u16>,
    state: StartState,
    event: StartEvent,
) -> (r: (StartState, StartAction))
    ensures
        (r.0@, r.1@) == start_next(c@, port, state@, event@),
{
    let used: Option<u16> = match port {
        Some(p) => Some(p),
        None => c.port,
    };
    match (state, event) {
        (StartState::AskRunning, StartEvent::Running(running)) => if running {
            (StartState::AskAddress, StartAction::ResolveAddress)
        } else {
            (StartState::Starting, StartAction::Start)
        },
        (StartState::AskAddress, StartEvent::Address(found)) => {
            let addr: String = match found {
                Some(ip) => addr_with_port(ip.as_str(), used),
                None => match &c.ip {
                    Some(ip) => addr_with_port(ip.as_str(), used),
                    None => addr_with_port(c.id.as_str(), used),
                },
            };
            (StartState::Finished, StartAction::Ready(addr))
        },
        (StartState::Starting, StartEvent::Started(now)) => {
            let deadline: u128 = now.as_nanos() + c.startup_timeout.as_nanos();
            look_again(now, deadline, false)
        },
        (StartState::AwaitRunning { deadline }, StartEvent::Running(running)) => if running {
            (StartState::AwaitAddress { deadline }, StartAction::ResolveAddress)
        } else {
            pause_start(deadline, false)
        },
        (StartState::AwaitAddress { deadline }, StartEvent::Address(found)) => match found {
            Some(ip) => match used {
                None => (StartState::Finished, StartAction::Ready(ip)),
                Some(p) => {
                    let addr: String = container::join_host_port(ip.as_str(), p);
                    (
                        StartState::AwaitPort { deadline, ip, port: p },
                        StartAction::ProbePort(addr),
                    )
                },
            },
            None => pause_start(deadline, true),
        },
        (StartState::AwaitPort { deadline, ip, port: p }, StartEvent::PortOpen(open)) => if open {
            let addr: String = container::join_host_port(ip.as_str(), p);
            match &c.healthcheck_status {
                None => (StartState::Finished, StartAction::Ready(addr)),
                Some(_) => {
                    let url: String = join_health_url(c, ip.as_str(), p);
                    (StartState::AwaitHealth { deadline, addr }, StartAction::CheckHealth(url))
                },
            }
        } else {
            pause_start(deadline, true)
        },
        (StartState::AwaitHealth { deadline, addr }, StartEvent::Status(status)) => {
            match &c.healthcheck_status {
                Some(allowed) => {
                    assert(allowed.deep_view() == allowed@);
                    if status_ok(status, allowed) {
                        (StartState::Finished, StartAction::Ready(addr))
                    } else {
                        pause_start(deadline, true)
                    }
                },
                None => (StartState::Finished, StartAction::Ready(addr)),
            }
        },
        (StartState::Pausing { deadline, running }, StartEvent::Paused(now)) => look_again(
            now,
            deadline,
            running,
        ),
        _ => (StartState::Finished, StartAction::Fail(StartError::Docker)),
    }
}

// ---------------------------------------------------------------------------------------------
// Waiting for a dependency to be healthy
// ---------------------------------------------------------------------------------------------

/// How far the wait for a healthy container has come.
#[derive(Debug, Clone, Copy, PartialEq, Eq, Structural)]
pub enum HealthWait {
    /// It was asked whether the container is ready.
    Asking { deadline: u128 },
    /// A pause before the next question.
    Pausing { deadline: u128 },
    /// The wait is over.
    Finished,
}

/// What happened during the wait.
#[derive(Debug, Clone, Copy, PartialEq, Eq, Structural)]
pub enum HealthEvent {
    /// Whether the container is ready.
    Ready(bool),
    /// The Docker API failed.
    DockerFailed,
    /// The pause is over; the clock.
    Paused(Duration),
}

/// What is to be done next during the wait.
#[derive(Debug, Clone, Copy, PartialEq, Eq, Structural)]
pub enum HealthAction {
    /// Ask whether the container is ready.
    CheckReady,
    /// Pause this long.
    Pause(Duration),
    /// The container is healthy.
    Healthy,
    /// The container is not healthy.
    Fail(StartError),
}

/// The next question, unless the deadline has come.
pub open spec fn ask(now: Duration, deadline: nat) -> (HealthWait, HealthAction) {
    if now.total() >= deadline {
        (HealthWait::Finished, HealthAction::Fail(StartError::NotHealthy))
    } else {
        (HealthWait::Asking { deadline: deadline as u128 }, HealthAction::CheckReady)
    }
}

/// The start of a wait.
pub open spec fn wait_start(c: ContainerView, now: Duration) -> (HealthWait, HealthAction) {
    ask(now, now.total() + c.startup_timeout.total())
}

/// The next step of a wait.
pub open spec fn wait_next(state: HealthWait, event: HealthEvent) -> (HealthWait, HealthAction) {
    match (state, event) {
        (HealthWait::Asking { .. }, HealthEvent::Ready(true)) => (
            HealthWait::Finished,
            HealthAction::Healthy,
        ),
        (HealthWait::Asking { deadline }, HealthEvent::Ready(false)) => (
            HealthWait::Pausing { deadline },
            HealthAction::Pause(poll_pause()),
        ),
        (HealthWait::Pausing { deadline }, HealthEvent::Paused(now)) => ask(now, deadline as nat),
        _ => (HealthWait::Finished, HealthAction::Fail(StartError::Docker)),
    }
}

/// Asks again, unless the deadline has come.
fn ask_again(now: Duration, deadline: u128) -> (r: (HealthWait, HealthAction))
    ensures
        r == ask(now, deadline as nat),
{
    if now.as_nanos() >= deadline {
        (HealthWait::Finished, HealthAction::Fail(StartError::NotHealthy))
    } else {
        (HealthWait::Asking { deadline }, HealthAction::CheckReady)
    }
}

/// Begins to wait for a container to be healthy.
pub fn wait_healthy(c: &ManagedContainer, now: Duration) -> (r: (HealthWait, HealthAction))
    ensures
        r == wait_start(c@, now),
{
    ask_again(now, now.as_nanos() + c.startup_timeout.as_nanos())
}

/// Goes on waiting for a container to be healthy.
pub fn wait_healthy_step(state: HealthWait, event: HealthEvent) -> (r: (HealthWait, HealthAction))
    ensures
        r == wait_next(state, event),
{
    match (state, event) {
        (HealthWait::Asking { deadline }, HealthEvent::Ready(ready)) => if ready {
            (HealthWait::Finished, HealthAction::Healthy)
        } else {
            let half: Duration = Duration { secs: 0, nanos: 500_000_000 };
            (HealthWait::Pausing { deadline }, HealthAction::Pause(half))
        },
        (HealthWait::Pausing { deadline }, HealthEvent::Paused(now)) => ask_again(now, deadline),
        _ => (HealthWait::Finished, HealthAction::Fail(StartError::Docker)),
    }
}

// ---------------------------------------------------------------------------------------------
// Starting several
// ---------------------------------------------------------------------------------------------

/// The condition that makes a container wait for a healthy dependency.
pub const SERVICE_HEALTHY: &'static str = "service_healthy";

/// Whether a member of a level is waited for until it is healthy.
pub fn waits_for_health(condition: &Option<String>) -> (r: bool)
    ensures
        r == (condition.deep_view() == Some(SERVICE_HEALTHY@)),
{
    container::is_text(condition, SERVICE_HEALTHY)
}

/// The levels that are started before a container: all but the last, which is its own.
pub open spec fn levels_before(c: ContainerView, containers: Seq<ContainerView>) -> Seq<
    Seq<levels::Member>,
> {
    levels::levels_of(seq![c], containers, config::MAX_DEPENDENCY_DEPTH).drop_last()
}

/// Begins to start a container: level by level what it depends on, and then the container itself,
/// to be used on this port.
pub fn ensure_started_with_port(
    c: &ManagedContainer,
    containers: &[ManagedContainer],
    port: Option<u16>,
) -> (r: (LevelState, LevelAction))
    ensures
        (r.0@, r.1@) == starts::begin(
            levels_before(c@, containers.deep_view()),
            Some((c@, port)),
        ),
{
    let mut targets: Vec<ManagedContainer> = Vec::new();
    targets.push(c.clone());
    assert(targets.deep_view() == seq![c@]);
    let mut before: Vec<Vec<(ManagedContainer, Option<String>)>> = levels::dependency_levels_multi(
        targets.as_slice(),
        containers,
        config::MAX_DEPENDENCY_DEPTH,
    );
    let ghost all = before.deep_view();
    assert(all.len() >= 1);
    let _ = before.pop();
    assert(before.deep_view() == all.drop_last());
    starts::start_levels(before, Some((c.clone(), port)))
}

/// The start of a group.
#[derive(Debug)]
pub struct GroupStart {
    /// How long it may take in all.
    pub timeout: Duration,
    /// The state of its levels.
    pub state: LevelState,
    /// What is to be done first.
    pub action: LevelAction,
}

/// The longest of the times that the containers may take to start.
pub open spec fn longest_timeout(members: Seq<ContainerView>) -> Duration
    decreases members.len(),
{
    if members.len() <= 1 {
        members[0].startup_timeout
    } else {
        let before = longest_timeout(members.drop_last());
        if before.total() > members.last().startup_timeout.total() {
            before
        } else {
            members.last().startup_timeout
        }
    }
}

/// The longest of the times that the containers may take to start.
#[verifier::spinoff_prover]
#[verifier::rlimit(50)]
fn find_longest(members: &Vec<ManagedContainer>) -> (r: Duration)
    requires
        members@.len() > 0,
    ensures
        r == longest_timeout(members.deep_view()),
{
    let ghost all = members.deep_view();
    let mut r: Duration = members[0].startup_timeout;
    let mut i: usize = 1;
    assert(all.take(1)[0] == all[0]);
    assert(all.take(1).len() == 1);
    assert(longest_timeout(all.take(1)) == r);
    while i < members.len()
        invariant
            1 <= i <= members@.len(),
            all == members.deep_view(),
            r == longest_timeout(all.take(i as int)),
        decreases members.len() - i,
    {
        proof {
            let next = all.take(i + 1);
            assert(next.drop_last() == all.take(i as int));
            assert(next.last() == members@[i as int]@);
            assert(next.len() == i + 1);
            assert(longest_timeout(next) == if r.total() > next.last().startup_timeout.total() {
                r
            } else {
                next.last().startup_timeout
            });
        }
        if r.as_nanos() <= members[i].startup_timeout.as_nanos() {
            r = members[i].startup_timeout;
        }
        i = i + 1;
    }
    assert(all.take(all.len() as int) == all);
    r
}

/// The levels of a group: its members and what they depend on.
pub open spec fn group_levels(router: RouterView, group: Seq<char>) -> Seq<Seq<levels::Member>> {
    levels::levels_of(router.group(group), router.containers(), config::MAX_DEPENDENCY_DEPTH)
}

/// Begins to start a group, level by level: all its members and what they depend on, within the
/// longest time that one of the members may take. `None` where the group has no members.
pub fn ensure_group_started(router: &Router, group: &str) -> (r: Option<GroupStart>)
    ensures
        r is None <==> router@.group(group@).len() == 0,
        r matches Some(g) ==> g.timeout == longest_timeout(router@.group(group@)) && (
            g.state@,
            g.action@,
        ) == starts::begin(group_levels(router@, group@), None),
{
    let containers: Vec<ManagedContainer> = router.containers();
    let members: Vec<ManagedContainer> = router.group_containers(group);
    assert(members.deep_view().len() == members@.len());
    if members.len() == 0 {
        return None;
    }
    let timeout: Duration = find_longest(&members);
    let all: Vec<Vec<(ManagedContainer, Option<String>)>> = levels::dependency_levels_multi(
        members.as_slice(),
        containers.as_slice(),
        config::MAX_DEPENDENCY_DEPTH,
    );
    let (state, action): (LevelState, LevelAction) = starts::start_levels(all, None);
    Some(GroupStart { timeout, state, action })
}

// ---------------------------------------------------------------------------------------------
// Laws
// ---------------------------------------------------------------------------------------------

/// Only a container that does not run is told to start.
pub proof fn lemma_start_only_stopped(
    c: ContainerView,
    port: Option<u16>,
    state: StartStateView,
    event: StartEventView,
)
    requires
        start_next(c, port, state, event).1 == StartActionView::Start,
    ensures
        state == StartStateView::AskRunning,
        event == StartEventView::Running(false),
{
}

/// A container is called ready only where it was seen to be: it ran already; or it has no port and
/// has an address; or its port is open and no health check is asked for; or the answer to its
/// health check is accepted.
pub proof fn lemma_ready_is_ready(
    c: ContainerView,
    port: Option<u16>,
    state: StartStateView,
    event: StartEventView,
    addr: Seq<char>,
)
    requires
        start_next(c, port, state, event).1 == StartActionView::Ready(addr),
        c.healthcheck_status is None ==> !(state is AwaitHealth),
    ensures
        ({
            ||| state is AskAddress && event is Address
            ||| state is AwaitAddress && event == StartEventView::Address(Some(addr)) && port_for(
                c,
                port,
            ) is None
            ||| state is AwaitPort && event == StartEventView::PortOpen(true)
                && c.healthcheck_status is None
            ||| state is AwaitHealth && (event matches StartEventView::Status(status) && accepted(
                status,
                c.healthcheck_status->0,
            ))
        }),
{
}

/// The health check is only waited for where status codes are set for it.
pub proof fn lemma_health_only_where_set(
    c: ContainerView,
    port: Option<u16>,
    state: StartStateView,
    event: StartEventView,
)
    ensures
        start_next(c, port, state, event).0 is AwaitHealth ==> c.healthcheck_status is Some,
{
}

/// The deadline of a start stays what it was when the container was told to start.
pub open spec fn deadline_of(state: StartStateView) -> Option<nat> {
    match state {
        StartStateView::AwaitRunning { deadline } => Some(deadline),
        StartStateView::AwaitAddress { deadline } => Some(deadline),
        StartStateView::AwaitPort { deadline, .. } => Some(deadline),
        StartStateView::AwaitHealth { deadline, .. } => Some(deadline),
        StartStateView::Pausing { deadline, .. } => Some(deadline),
        _ => None,
    }
}

/// A start that goes on keeps its deadline, and after a pause past the deadline it is given up.
pub proof fn lemma_deadline(
    c: ContainerView,
    port: Option<u16>,
    state: StartStateView,
    event: StartEventView,
)
    requires
        deadline_of(state) is Some,
    ensures
        deadline_of(start_next(c, port, state, event).0) is Some ==> deadline_of(
            start_next(c, port, state, event).0,
        ) == deadline_of(state),
        event matches StartEventView::Paused(now) && state is Pausing && now.total()
            >= deadline_of(state)->0 ==> start_next(c, port, state, event) == (
            StartStateView::Finished,
            StartActionView::Fail(StartError::NotReady),
        ),
{
}

/// A stopped container that comes up within its time is ready at its address: told to start at
/// `now`, seen running, with an address, with its port open and its health check answered with an
/// accepted status.
pub proof fn lemma_start_succeeds(
    c: ContainerView,
    port: u16,
    now: Duration,
    ip: Seq<char>,
    status: u16,
)
    requires
        c.startup_timeout.total() > 0,
        c.healthcheck_status matches Some(allowed) ==> allowed.contains(status),
    ensures
        ({
            let p = Some(port);
            let (s1, a1) = start_next(
                c,
                p,
                StartStateView::AskRunning,
                StartEventView::Running(false),
            );
            let (s2, a2) = start_next(c, p, s1, StartEventView::Started(now));
            let (s3, a3) = start_next(c, p, s2, StartEventView::Running(true));
            let (s4, a4) = start_next(c, p, s3, StartEventView::Address(Some(ip)));
            let (s5, a5) = start_next(c, p, s4, StartEventView::PortOpen(true));
            let (s6, a6) = start_next(c, p, s5, StartEventView::Status(Some(status)));
            let end = StartActionView::Ready(container::host_port(ip, port));
            &&& a1 == StartActionView::Start
            &&& a2 == StartActionView::CheckRunning
            &&& a3 == StartActionView::ResolveAddress
            &&& a4 == StartActionView::ProbePort(container::host_port(ip, port))
            &&& c.healthcheck_status is None ==> a5 == end
            &&& c.healthcheck_status is Some ==> a5 == StartActionView::CheckHealth(
                health_url(c, ip, port),
            ) && a6 == end
        }),
{
}

/// A container that runs is ready at once, with the port that is asked for: at its address, or,
/// where that cannot be asked for, at the one that its entry holds.
pub proof fn lemma_running_is_ready(c: ContainerView, port: Option<u16>, ip: Option<Seq<char>>)
    ensures
        ({
            let (s1, a1) = start_next(
                c,
                port,
                StartStateView::AskRunning,
                StartEventView::Running(true),
            );
            let (s2, a2) = start_next(c, port, s1, StartEventView::Address(ip));
            let host = match ip {
                Some(ip) => ip,
                None => known_host(c),
            };
            &&& a1 == StartActionView::ResolveAddress
            &&& a2 == StartActionView::Ready(address(host, port_for(c, port)))
        }),
{
}

/// A container is called healthy only where it was just seen to be ready.
pub proof fn lemma_healthy_is_ready(state: HealthWait, event: HealthEvent)
    ensures
        wait_next(state, event).1 == HealthAction::Healthy <==> state is Asking && event
            == HealthEvent::Ready(true),
{
}

/// The deadline of a wait.
pub open spec fn wait_deadline(state: HealthWait) -> Option<u128> {
    match state {
        HealthWait::Asking { deadline } => Some(deadline),
        HealthWait::Pausing { deadline } => Some(deadline),
        HealthWait::Finished => None,
    }
}

/// A wait that goes on keeps its deadline, and after a pause up to the deadline it is given up.
pub proof fn lemma_wait_deadline(state: HealthWait, event: HealthEvent)
    ensures
        wait_deadline(wait_next(state, event).0) is Some ==> wait_deadline(
            wait_next(state, event).0,
        ) == wait_deadline(state),
        event matches HealthEvent::Paused(now) && state is Pausing && now.total()
            >= wait_deadline(state)->0 ==> wait_next(state, event) == (
            HealthWait::Finished,
            HealthAction::Fail(StartError::NotHealthy),
        ),
{
}

/// When a group is started, each of its members stands in some level.
pub proof fn lemma_group_members_started(
    members: Seq<ContainerView>,
    containers: Seq<ContainerView>,
    k: int,
)
    requires
        forall|i: int| 0 <= i < members.len() ==> containers.contains(#[trigger] members[i]),
        0 <= k < members.len(),
    ensures
        level_laws::is_started(
            levels::levels_of(members, containers, config::MAX_DEPENDENCY_DEPTH),
            members[k].id,
        ),
{
    let depth = config::MAX_DEPENDENCY_DEPTH;
    let id = members[k].id;
    level_laws::lemma_waves(members, containers, depth);
    let waves = levels::waves_of(members, containers, depth);
    assert(router::has_id(members, id));
    assert(levels::in_wave(waves[0], id));
    assert(levels::in_waves(waves, id));
    assert(containers[containers.index_of(members[k])].id == id);
    level_laws::lemma_started(members, containers, depth, id);
}

/// What is started before a container is exactly what it depends on, directly or not, no more
/// dependencies away than the depth allows, as far as it is managed.
pub proof fn lemma_levels_before(c: ContainerView, containers: Seq<ContainerView>, id: Seq<char>)
    requires
        router::has_id(containers, c.id),
    ensures
        level_laws::is_started(levels_before(c, containers), id) <==> id != c.id && router::has_id(
            containers,
            id,
        ) && exists|n: nat|
            n <= config::MAX_DEPENDENCY_DEPTH && #[trigger] level_laws::leads(
                containers,
                c.id,
                id,
                n,
            ),
{
    let depth = config::MAX_DEPENDENCY_DEPTH;
    let before = levels_before(c, containers);
    let all = levels::levels_of(seq![c], containers, depth);
    let last = all.len() - 1;
    level_laws::lemma_target_last(c, containers, depth, id);
    level_laws::lemma_started_are_needed(seq![c], containers, depth, id);
    if level_laws::is_started(before, id) {
        let k = choose|k: int|
            0 <= k < before.len() && level_laws::in_level(#[trigger] before[k], id);
        assert(level_laws::in_level(all[k], id));
        level_laws::lemma_started_once(seq![c], containers, depth, k, last, id);
        assert(level_laws::is_started(all, id));
    }
    if level_laws::is_started(all, id) && id != c.id {
        let k = choose|k: int| 0 <= k < all.len() && level_laws::in_level(#[trigger] all[k], id);
        assert(k != last);
        assert(level_laws::in_level(before[k], id));
    }
    if exists|n: nat|
        n <= depth && #[trigger] level_laws::leads(containers, c.id, id, n) {
        let n = choose|n: nat|
            n <= depth && #[trigger] level_laws::leads(containers, c.id, id, n);
        assert(level_laws::leads(containers, seq![c][0].id, id, n));
    }
}

/// A container is told to start only after all that it depends on, directly or not, came up: that
/// stands in the levels before, and all of those came up.
pub proof fn lemma_dependency_is_up(
    c: ContainerView,
    port: Option<u16>,
    containers: Seq<ContainerView>,
    answers: Seq<Seq<bool>>,
    id: Seq<char>,
    n: nat,
)
    requires
        router::has_id(containers, c.id),
        router::has_id(containers, id),
        id != c.id,
        n <= config::MAX_DEPENDENCY_DEPTH,
        level_laws::leads(containers, c.id, id, n),
        starts::after(levels_before(c, containers), Some((c, port)), answers).1 is StartTarget,
    ensures
        level_laws::is_started(levels_before(c, containers), id),
        starts::came_up(
            levels_before(c, containers),
            answers,
            levels_before(c, containers).len() as int,
        ),
{
    lemma_levels_before(c, containers, id);
    starts::lemma_all_levels_before(levels_before(c, containers), Some((c, port)), answers);
}

/// The longest time to start of a group is that of one of its members, and none of them has a
/// longer one.
pub proof fn lemma_longest_timeout(members: Seq<ContainerView>)
    requires
        members.len() > 0,
    ensures
        exists|k: int| 0 <= k < members.len() && (#[trigger] members[k]).startup_timeout
            == longest_timeout(members),
        forall|k: int| 0 <= k < members.len() ==> (#[trigger] members[k]).startup_timeout.total()
            <= longest_timeout(members).total(),
    decreases members.len(),
{
    if members.len() == 1 {
        assert(members[0].startup_timeout == longest_timeout(members));
    } else {
        let init = members.drop_last();
        lemma_longest_timeout(init);
        let k = choose|k: int| 0 <= k < init.len() && (#[trigger] init[k]).startup_timeout
            == longest_timeout(init);
        assert(members[k].startup_timeout == longest_timeout(init));
        assert(members[members.len() - 1] == members.last());
        assert forall|k: int| 0 <= k < members.len() implies (
        #[trigger] members[k]).startup_timeout.total() <= longest_timeout(members).total() by {
            if k < init.len() {
                assert(init[k].startup_timeout.total() <= longest_timeout(init).total());
            }
        }
    }
}

} // verus!
