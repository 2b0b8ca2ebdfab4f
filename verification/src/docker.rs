//! What is made of the answers of the Docker API.

use crate::aliases;
use crate::container;
use crate::container::{ContainerView, ManagedContainer};
use crate::labels;
use crate::labels::ContainerSummary;
use crate::text;
use crate::time::Duration;
use vstd::prelude::*;
use vstd::string::StringExecFns;

verus! {

// ---------------------------------------------------------------------------------------------
// Listing
// ---------------------------------------------------------------------------------------------

/// The managed container that a listed one is.
pub open spec fn managed(c: ContainerSummary) -> Option<ContainerView> {
    labels::container_of(
        c.id.deep_view(),
        c.names.deep_view(),
        c.ports.deep_view(),
        c.labels.deep_view(),
        c.state,
        c.created,
    )
}

/// The managed containers among those that the Docker API lists. Their addresses are not known
/// yet.
pub fn list_managed(summaries: &Vec<ContainerSummary>) -> (r: Vec<ManagedContainer>)
    ensures
        r.deep_view() == summaries@.filter_map(|c: ContainerSummary| managed(c)),
{
    let ghost f = |c: ContainerSummary| managed(c);
    let ghost all = summaries@;
    let mut r: Vec<ManagedContainer> = Vec::new();
    let mut i: usize = 0;
    proof {
        reveal(Seq::filter_map);
        assert(all.take(0) == Seq::<ContainerSummary>::empty());
        assert(r.deep_view() == all.take(0).filter_map(f));
    }
    while i < summaries.len()
        invariant
            i <= summaries@.len(),
            all == summaries@,
            f == (|c: ContainerSummary| managed(c)),
            r.deep_view() == all.take(i as int).filter_map(f),
        decreases summaries.len() - i,
    {
        let ghost before = r.deep_view();
        proof {
            all.lemma_filter_map_take_succ(f, i as int);
        }
        match labels::parse_container(&summaries[i]) {
            Some(m) => {
                r.push(m);
                assert(r.deep_view() == before.push(m@));
            },
            None => {},
        }
        i = i + 1;
    }
    assert(all.take(all.len() as int) == all);
    r
}

// ---------------------------------------------------------------------------------------------
// Addresses
// ---------------------------------------------------------------------------------------------

/// A network that a container is on, with its address there.
#[derive(Debug)]
pub struct Network {
    pub name: String,
    pub ip: Option<String>,
}

/// The mathematical value of a `Network`.
#[verifier::ext_equal]
pub struct NetworkView {
    pub name: Seq<char>,
    pub ip: Option<Seq<char>>,
}

impl View for Network {
    type V = NetworkView;

    open spec fn view(&self) -> NetworkView {
        NetworkView { name: self.name@, ip: self.ip.deep_view() }
    }
}

impl DeepView for Network {
    type V = NetworkView;

    open spec fn deep_view(&self) -> NetworkView {
        self@
    }
}

/// Why the address of a container cannot be given.
#[derive(Debug)]
pub enum AddressError {
    /// The container with this id has none on any network.
    NoAddress(String),
}

impl AddressError {
    /// The error in words.
    pub fn message(&self) -> (r: String)
        ensures
            match self {
                AddressError::NoAddress(id) => r@ == "container "@ + id@ + " has no IP"@,
            },
    {
        match self {
            AddressError::NoAddress(id) => {
                let mut r: String = "container ".to_string();
                r.append(id.as_str());
                r.append(" has no IP");
                r
            },
        }
    }
}

/// The first address that is not empty, among the networks in `shared` only where that is given.
pub open spec fn first_address(
    networks: Seq<NetworkView>,
    shared: Option<Seq<Seq<char>>>,
) -> Option<Seq<char>>
    decreases networks.len(),
{
    if networks.len() == 0 {
        None
    } else {
        let n = networks[0];
        let here = match shared {
            Some(names) => names.contains(n.name),
            None => true,
        };
        match n.ip {
            Some(ip) if here && ip.len() > 0 => Some(ip),
            _ => first_address(networks.skip(1), shared),
        }
    }
}

/// The address of a container: that on a network that the proxy is on too, or else the first.
pub open spec fn address_of(networks: Seq<NetworkView>, own: Seq<Seq<char>>) -> Option<Seq<char>> {
    match first_address(networks, Some(own)) {
        Some(ip) => Some(ip),
        None => first_address(networks, None),
    }
}

/// The first address that is not empty.
fn find_address(networks: &Vec<Network>, shared: Option<&Vec<String>>) -> (r: Option<String>)
    ensures
        r.deep_view() == first_address(networks.deep_view(), shared.deep_view()),
{
    let ghost all = networks.deep_view();
    let mut i: usize = 0;
    assert(all.skip(0) == all);
    while i < networks.len()
        invariant
            i <= networks@.len(),
            all == networks.deep_view(),
            first_address(all, shared.deep_view()) == first_address(
                all.skip(i as int),
                shared.deep_view(),
            ),
        decreases networks.len() - i,
    {
        let n: &Network = &networks[i];
        assert(all.skip(i as int)[0] == n@);
        let here: bool = match shared {
            Some(names) => aliases::contains_text(names, n.name.as_str()),
            None => true,
        };
        match &n.ip {
            Some(ip) => {
                if here && !ip.as_str().is_empty() {
                    return Some(ip.clone());
                }
            },
            None => {},
        }
        assert(all.skip(i as int).skip(1) == all.skip(i + 1));
        i = i + 1;
    }
    None
}

/// The address of the container with this id. An address on a network that the proxy is on too is
/// taken over one on another network.
pub fn resolve_ip(id: &str, networks: &Vec<Network>, own: &Vec<String>) -> (r: Result<
    String,
    AddressError,
>)
    ensures
        match r {
            Ok(ip) => address_of(networks.deep_view(), own.deep_view()) == Some(ip@),
            Err(AddressError::NoAddress(of)) => address_of(
                networks.deep_view(),
                own.deep_view(),
            ) is None && of@ == id@,
        },
{
    match find_address(networks, Some(own)) {
        Some(ip) => Ok(ip),
        None => match find_address(networks, None) {
            Some(ip) => Ok(ip),
            None => Err(AddressError::NoAddress(id.to_string())),
        },
    }
}

/// `n` has an address, and is shared where that is asked for.
pub open spec fn has_address(n: NetworkView, shared: Option<Seq<Seq<char>>>) -> bool {
    &&& n.ip matches Some(ip) && ip.len() > 0
    &&& shared matches Some(names) ==> names.contains(n.name)
}

/// There is a first address exactly where some network has one, and it is that of such a network.
proof fn lemma_first_address(networks: Seq<NetworkView>, shared: Option<Seq<Seq<char>>>)
    ensures
        first_address(networks, shared) is Some <==> exists|i: int|
            0 <= i < networks.len() && has_address(#[trigger] networks[i], shared),
        first_address(networks, shared) matches Some(ip) ==> exists|i: int|
            0 <= i < networks.len() && has_address(#[trigger] networks[i], shared)
                && networks[i].ip == Some(ip),
    decreases networks.len(),
{
    if networks.len() > 0 {
        let rest = networks.skip(1);
        lemma_first_address(rest, shared);
        if has_address(networks[0], shared) {
            assert(first_address(networks, shared) == networks[0].ip);
        } else {
            if exists|i: int| 0 <= i < rest.len() && has_address(#[trigger] rest[i], shared) {
                let i = choose|i: int|
                    0 <= i < rest.len() && has_address(#[trigger] rest[i], shared) && Some(
                        first_address(rest, shared)->0,
                    ) == rest[i].ip;
                assert(has_address(networks[i + 1], shared));
            }
            if exists|i: int| 0 <= i < networks.len() && has_address(
                #[trigger] networks[i],
                shared,
            ) {
                let i = choose|i: int|
                    0 <= i < networks.len() && has_address(#[trigger] networks[i], shared);
                assert(has_address(rest[i - 1], shared));
            }
        }
    }
}

/// A container has an address wherever it has one that is not empty on some network; and where it
/// has one on a network that the proxy is on, such a one is given.
pub proof fn lemma_address(networks: Seq<NetworkView>, own: Seq<Seq<char>>, i: int)
    requires
        0 <= i < networks.len(),
        has_address(networks[i], None),
    ensures
        address_of(networks, own) is Some,
        own.contains(networks[i].name) ==> exists|k: int|
            0 <= k < networks.len() && own.contains((#[trigger] networks[k]).name)
                && address_of(networks, own) == networks[k].ip,
{
    lemma_first_address(networks, Some(own));
    lemma_first_address(networks, None);
    if own.contains(networks[i].name) {
        assert(has_address(networks[i], Some(own)));
        let k = choose|k: int|
            0 <= k < networks.len() && has_address(#[trigger] networks[k], Some(own))
                && networks[k].ip == Some(first_address(networks, Some(own))->0);
        assert(own.contains(networks[k].name));
    }
}

// ---------------------------------------------------------------------------------------------
// State and health
// ---------------------------------------------------------------------------------------------

/// What the Docker API says of a container's health.
#[derive(Debug, Clone, Copy, PartialEq, Eq, Structural)]
pub enum HealthStatus {
    Empty,
    Unchecked,
    Starting,
    Healthy,
    Unhealthy,
}

/// What the Docker API says of a container's state.
#[derive(Debug, Clone, Copy, PartialEq, Eq, Structural)]
pub struct Inspection {
    /// Whether it runs, where that is said.
    pub running: Option<bool>,
    /// Its health, where a health check is defined.
    pub health: Option<HealthStatus>,
}

impl Inspection {
    /// The container is said to run.
    pub open spec fn runs(self) -> bool {
        self.running == Some(true)
    }

    /// The container runs, and is healthy where a health check is defined.
    pub open spec fn ready(self) -> bool {
        self.runs() && (self.health is None || self.health == Some(HealthStatus::Healthy))
    }

    /// Whether the container runs.
    pub fn is_running(&self) -> (r: bool)
        ensures
            r == self.runs(),
    {
        match self.running {
            Some(running) => running,
            None => false,
        }
    }

    /// Whether the container is ready: it runs, and where a health check is defined, it is healthy.
    pub fn is_ready(&self) -> (r: bool)
        ensures
            r == self.ready(),
    {
        if !self.is_running() {
            return false;
        }
        match self.health {
            Some(status) => status == HealthStatus::Healthy,
            None => true,
        }
    }
}

// ---------------------------------------------------------------------------------------------
// The proxy itself
// ---------------------------------------------------------------------------------------------

/// The host name in the text of the host name file.
pub fn own_hostname(content: &str) -> (r: String)
    ensures
        r@ == text::trimmed(content@),
{
    text::trim(content).to_string()
}

/// The id of the proxy's own container: what an inspection under its host name gives, or else the
/// host name itself; none where the inspection failed.
pub fn own_id(hostname: String, inspected: Option<Option<String>>) -> (r: Option<String>)
    ensures
        r.deep_view() == (match inspected.deep_view() {
            Some(Some(id)) => Some(id),
            Some(None) => Some(hostname@),
            None => None,
        }),
{
    match inspected {
        Some(Some(id)) => Some(id),
        Some(None) => Some(hostname),
        None => None,
    }
}

/// The containers that the proxy started, by id.
#[derive(Debug)]
pub struct Started {
    ids: Vec<String>,
}

impl View for Started {
    type V = Seq<Seq<char>>;

    closed spec fn view(&self) -> Seq<Seq<char>> {
        self.ids.deep_view()
    }
}

/// Other ids than `id`.
pub open spec fn another(id: Seq<char>) -> spec_fn(Seq<char>) -> bool {
    |x: Seq<char>| x != id
}

impl Started {
    /// None so far.
    pub fn new() -> (r: Self)
        ensures
            r@ == Seq::<Seq<char>>::empty(),
    {
        let r = Started { ids: Vec::new() };
        assert(r@ == Seq::<Seq<char>>::empty());
        r
    }

    /// Records that a container was started.
    pub fn record(&mut self, id: &str)
        ensures
            final(self)@ == (if old(self)@.contains(id@) {
                old(self)@
            } else {
                old(self)@.push(id@)
            }),
    {
        let ghost before = self@;
        if !aliases::contains_text(&self.ids, id) {
            self.ids.push(id.to_string());
            assert(self@ == before.push(id@));
        }
    }

    /// The containers that were started.
    pub fn started_by_dormant(&self) -> (r: Vec<String>)
        ensures
            r.deep_view() == self@,
    {
        container::copy_texts(&self.ids)
    }

    /// Forgets a container.
    pub fn forget_started(&mut self, id: &str)
        ensures
            final(self)@ == old(self)@.filter(another(id@)),
    {
        let ghost all = self@;
        let ghost p = another(id@);
        let mut kept: Vec<String> = Vec::new();
        let mut i: usize = 0;
        proof {
            reveal(Seq::filter);
            assert(all.take(0) == Seq::<Seq<char>>::empty());
            assert(kept.deep_view() == all.take(0).filter(p));
        }
        while i < self.ids.len()
            invariant
                i <= self.ids@.len(),
                all == self.ids.deep_view(),
                all == old(self)@,
                p == another(id@),
                kept.deep_view() == all.take(i as int).filter(p),
            decreases self.ids.len() - i,
        {
            let ghost before = kept.deep_view();
            proof {
                reveal(Seq::filter);
                let next = all.take(i + 1);
                assert(next.drop_last() == all.take(i as int));
                assert(next.last() == self.ids@[i as int]@);
            }
            if !text::equal(self.ids[i].as_str(), id) {
                kept.push(self.ids[i].clone());
                assert(kept.deep_view() == before.push(all[i as int]));
            }
            i = i + 1;
        }
        assert(all.take(all.len() as int) == all);
        self.ids = kept;
    }
}

/// A forgotten container is no longer among those that were started, and the others still are.
pub proof fn lemma_forgotten(started: Seq<Seq<char>>, id: Seq<char>, x: Seq<char>)
    ensures
        started.filter(another(id)).contains(x) <==> started.contains(x) && x != id,
{
    let p = another(id);
    if started.filter(p).contains(x) {
        started.lemma_filter_contains_rev(p, x);
    }
    if started.contains(x) && x != id {
        started.lemma_filter_contains(p, started.index_of(x));
    }
}

// ---------------------------------------------------------------------------------------------
// Events
// ---------------------------------------------------------------------------------------------

/// The actions after which the routes may have changed.
pub open spec fn changes_routes(action: Seq<char>) -> bool {
    ||| action == "create"@
    ||| action == "start"@
    ||| action == "stop"@
    ||| action == "destroy"@
    ||| action == "die"@
    ||| action == "rename"@
}

/// Whether the routes may have changed after an action.
pub fn route_action(action: &str) -> (r: bool)
    ensures
        r == changes_routes(action@),
{
    text::equal(action, "create") || text::equal(action, "start") || text::equal(action, "stop")
        || text::equal(action, "destroy") || text::equal(action, "die") || text::equal(
        action,
        "rename",
    )
}

/// What happened while events are watched.
#[derive(Debug)]
pub enum WatchEvent {
    /// An event came, with the action that it names.
    Event(Option<String>),
    /// The routes were read anew.
    RoutesSynced,
    /// The routes could not be read anew.
    RoutesFailed,
    /// The aliases were seen to.
    AliasesSynced,
    /// The stream of events gave an error.
    StreamError,
    /// The pause is over.
    Waited,
}

/// What is done next while events are watched.
#[derive(Debug, Clone, Copy, PartialEq, Eq, Structural)]
pub enum WatchAction {
    /// Wait for the next event.
    Next,
    /// Read the routes anew.
    SyncRoutes,
    /// See to the aliases.
    SyncAliases,
    /// Pause this long.
    Wait(Duration),
}

/// What follows an event: actions that may change the routes have them read anew, and the aliases
/// seen to after that where a network is set for them. An error of the stream makes for a pause of
/// a second.
pub open spec fn watch_next(event: WatchEvent, with_aliases: bool) -> WatchAction {
    match event {
        WatchEvent::Event(Some(action)) if changes_routes(action@) => WatchAction::SyncRoutes,
        WatchEvent::RoutesSynced if with_aliases => WatchAction::SyncAliases,
        WatchEvent::StreamError => WatchAction::Wait(Duration { secs: 1, nanos: 0 }),
        _ => WatchAction::Next,
    }
}

/// Decides what follows an event.
pub fn watch_events_step(event: &WatchEvent, with_aliases: bool) -> (r: WatchAction)
    ensures
        r == watch_next(*event, with_aliases),
{
    match event {
        WatchEvent::Event(Some(action)) => if route_action(action.as_str()) {
            WatchAction::SyncRoutes
        } else {
            WatchAction::Next
        },
        WatchEvent::RoutesSynced => if with_aliases {
            WatchAction::SyncAliases
        } else {
            WatchAction::Next
        },
        WatchEvent::StreamError => WatchAction::Wait(Duration::from_secs(1)),
        _ => WatchAction::Next,
    }
}

} // verus!
