//! Sessions: when each container was last asked for, and what is connected to it.

use crate::sequences;
use crate::string_map;
use crate::string_map::StringMap;
use crate::time::Duration;
use vstd::prelude::*;

verus! {

/// The session of a container.
#[derive(Debug, Clone, Copy, PartialEq, Eq, Structural)]
pub struct SessionState {
    /// The clock at the last access.
    pub last_access: Duration,
    /// How long the session lasts without another access.
    pub duration: Duration,
}

impl DeepView for SessionState {
    type V = SessionState;

    open spec fn deep_view(&self) -> SessionState {
        *self
    }
}

impl SessionState {
    /// More time than the session lasts has passed since the last access. A clock that went back
    /// counts as no time passed.
    pub open spec fn is_over(self, now: Duration) -> bool {
        now.total() > self.last_access.total() + self.duration.total()
    }

    /// Whether the session is over.
    pub fn over(&self, now: Duration) -> (r: bool)
        ensures
            r == self.is_over(now),
    {
        now.as_nanos() > self.last_access.as_nanos() + self.duration.as_nanos()
    }
}

/// The sessions of all containers, by container id.
#[derive(Debug)]
pub struct Sessions {
    sessions: StringMap<SessionState>,
    active_conns: StringMap<usize>,
}

/// The mathematical value of `Sessions`.
#[verifier::ext_equal]
pub struct SessionsView {
    pub sessions: Seq<(Seq<char>, SessionState)>,
    pub active: Seq<(Seq<char>, usize)>,
}

impl View for Sessions {
    type V = SessionsView;

    closed spec fn view(&self) -> SessionsView {
        SessionsView { sessions: self.sessions@, active: self.active_conns@ }
    }
}

impl SessionsView {
    /// The number of connections to a container.
    pub open spec fn connections(self, id: Seq<char>) -> usize {
        match string_map::lookup(self.active, id) {
            Some(n) => n,
            None => 0,
        }
    }

    /// The session of a container.
    pub open spec fn session(self, id: Seq<char>) -> Option<SessionState> {
        string_map::lookup(self.sessions, id)
    }

    /// Every container has one session at most, and one count of connections, which is not 0.
    pub open spec fn wf(self) -> bool {
        &&& string_map::distinct_keys(self.sessions)
        &&& string_map::distinct_keys(self.active)
        &&& forall|i: int| 0 <= i < self.active.len() ==> (#[trigger] self.active[i]).1 > 0
    }

    /// After an access.
    pub open spec fn touched(self, id: Seq<char>, duration: Duration, now: Duration) -> Self {
        SessionsView {
            sessions: string_map::inserted(
                self.sessions,
                id,
                SessionState { last_access: now, duration },
            ),
            active: self.active,
        }
    }

    /// After a connection opened.
    pub open spec fn connected(self, id: Seq<char>) -> Self {
        SessionsView {
            sessions: self.sessions,
            active: string_map::inserted(self.active, id, (self.connections(id) + 1) as usize),
        }
    }

    /// After a connection closed. The last one takes the count away; where there is none, nothing
    /// changes.
    pub open spec fn disconnected(self, id: Seq<char>) -> Self {
        SessionsView {
            sessions: self.sessions,
            active: if self.connections(id) <= 1 {
                string_map::removed(self.active, id)
            } else {
                string_map::inserted(self.active, id, (self.connections(id) - 1) as usize)
            },
        }
    }

    /// After a container was forgotten.
    pub open spec fn forgotten(self, id: Seq<char>) -> Self {
        SessionsView {
            sessions: string_map::removed(self.sessions, id),
            active: string_map::removed(self.active, id),
        }
    }

    /// The id of an entry whose session is over and that nothing is connected to.
    pub open spec fn expiry(self, e: (Seq<char>, SessionState), now: Duration) -> Option<
        Seq<char>,
    > {
        if e.1.is_over(now) && self.connections(e.0) == 0 {
            Some(e.0)
        } else {
            None
        }
    }

    /// The containers whose sessions are over and that nothing is connected to.
    pub open spec fn expired(self, now: Duration) -> Seq<Seq<char>> {
        self.sessions.filter_map(|e: (Seq<char>, SessionState)| self.expiry(e, now))
    }
}

impl Sessions {
    /// No sessions.
    pub fn new() -> (r: Self)
        ensures
            r@ == (SessionsView { sessions: Seq::empty(), active: Seq::empty() }),
            r@.wf(),
    {
        Sessions { sessions: StringMap::new(), active_conns: StringMap::new() }
    }

    /// Records an access: the session starts anew.
    pub fn touch(&mut self, id: &str, duration: Duration, now: Duration)
        ensures
            final(self)@ == old(self)@.touched(id@, duration, now),
            old(self)@.wf() ==> final(self)@.wf(),
    {
        proof {
            lemma_touch_wf(self@, id@, duration, now);
        }
        self.sessions.insert(id.to_string(), SessionState { last_access: now, duration });
    }

    /// Records that a connection opened. A container with connections is not stopped.
    pub fn connect(&mut self, id: &str)
        requires
            old(self)@.connections(id@) < usize::MAX,
        ensures
            final(self)@ == old(self)@.connected(id@),
            old(self)@.wf() ==> final(self)@.wf(),
    {
        proof {
            lemma_connect_wf(self@, id@);
        }
        let n: usize = self.active_count(id);
        self.active_conns.insert(id.to_string(), n + 1);
    }

    /// Records that a connection closed; the count does not go below 0.
    pub fn disconnect(&mut self, id: &str)
        ensures
            final(self)@ == old(self)@.disconnected(id@),
            old(self)@.wf() ==> final(self)@.wf(),
    {
        proof {
            lemma_disconnect_wf(self@, id@);
        }
        let n: usize = self.active_count(id);
        if n <= 1 {
            self.active_conns.remove(id);
        } else {
            self.active_conns.insert(id.to_string(), n - 1);
        }
    }

    /// The number of connections to a container.
    pub fn active_count(&self, id: &str) -> (r: usize)
        ensures
            r == self@.connections(id@),
    {
        match self.active_conns.get(id) {
            Some(n) => *n,
            None => 0,
        }
    }

    /// Whether a container has a session that is not over.
    pub fn is_live(&self, id: &str, now: Duration) -> (r: bool)
        ensures
            r == (self@.session(id@) matches Some(s) && !s.is_over(now)),
    {
        match self.sessions.get(id) {
            Some(s) => !s.over(now),
            None => false,
        }
    }

    /// The containers whose sessions are over. Those with connections are left out.
    pub fn expired(&self, now: Duration) -> (r: Vec<String>)
        ensures
            r.deep_view() == self@.expired(now),
    {
        let ghost all = self@.sessions;
        let ghost f = |e: (Seq<char>, SessionState)| self@.expiry(e, now);
        let mut r: Vec<String> = Vec::new();
        let mut i: usize = 0;
        proof {
            reveal(Seq::filter_map);
            assert(all.take(0) == Seq::<(Seq<char>, SessionState)>::empty());
            assert(r.deep_view() == all.take(0).filter_map(f));
        }
        while i < self.sessions.len()
            invariant
                i <= all.len(),
                all == self.sessions@,
                f == (|e: (Seq<char>, SessionState)| self@.expiry(e, now)),
                r.deep_view() == all.take(i as int).filter_map(f),
            decreases all.len() - i,
        {
            let ghost before = r.deep_view();
            proof {
                all.lemma_filter_map_take_succ(f, i as int);
            }
            let id: &str = self.sessions.key(i).as_str();
            if self.sessions.value(i).over(now) && self.active_count(id) == 0 {
                r.push(id.to_string());
                assert(r.deep_view() == before.push(id@));
            }
            i = i + 1;
        }
        assert(all.take(all.len() as int) == all);
        r
    }

    /// Forgets a container.
    pub fn remove(&mut self, id: &str)
        ensures
            final(self)@ == old(self)@.forgotten(id@),
            old(self)@.wf() ==> final(self)@.wf(),
    {
        proof {
            lemma_forget_wf(self@, id@);
        }
        self.sessions.remove(id);
        self.active_conns.remove(id);
    }
}

// ---------------------------------------------------------------------------------------------
// Laws
// ---------------------------------------------------------------------------------------------

proof fn lemma_touch_wf(s: SessionsView, id: Seq<char>, duration: Duration, now: Duration)
    ensures
        s.wf() ==> s.touched(id, duration, now).wf(),
{
    string_map::lemma_inserted(
        s.sessions,
        id,
        SessionState { last_access: now, duration },
        id,
    );
}

proof fn lemma_positive_inserted(active: Seq<(Seq<char>, usize)>, id: Seq<char>, n: usize)
    requires
        forall|i: int| 0 <= i < active.len() ==> (#[trigger] active[i]).1 > 0,
        n > 0,
    ensures
        forall|i: int|
            0 <= i < string_map::inserted(active, id, n).len() ==> (
            #[trigger] string_map::inserted(active, id, n)[i]).1 > 0,
{
    let after = string_map::inserted(active, id, n);
    string_map::lemma_position(active, id);
    assert forall|i: int| 0 <= i < after.len() implies (#[trigger] after[i]).1 > 0 by {
        if i < active.len() && i != string_map::position(active, id) {
            assert(after[i] == active[i]);
        }
    }
}

proof fn lemma_positive_removed(active: Seq<(Seq<char>, usize)>, id: Seq<char>)
    requires
        forall|i: int| 0 <= i < active.len() ==> (#[trigger] active[i]).1 > 0,
    ensures
        forall|i: int|
            0 <= i < string_map::removed(active, id).len() ==> (
            #[trigger] string_map::removed(active, id)[i]).1 > 0,
{
    let keep = string_map::other_than::<Seq<char>, usize>(id);
    let after = string_map::removed(active, id);
    assert forall|i: int| 0 <= i < after.len() implies (#[trigger] after[i]).1 > 0 by {
        assert(after.contains(after[i]));
        active.lemma_filter_contains_rev(keep, after[i]);
        let k = active.index_of(after[i]);
        assert(active[k].1 > 0);
    }
}

proof fn lemma_connect_wf(s: SessionsView, id: Seq<char>)
    requires
        s.connections(id) < usize::MAX,
    ensures
        s.wf() ==> s.connected(id).wf(),
{
    if s.wf() {
        string_map::lemma_inserted(s.active, id, (s.connections(id) + 1) as usize, id);
        lemma_positive_inserted(s.active, id, (s.connections(id) + 1) as usize);
    }
}

proof fn lemma_disconnect_wf(s: SessionsView, id: Seq<char>)
    ensures
        s.wf() ==> s.disconnected(id).wf(),
{
    if s.wf() {
        if s.connections(id) <= 1 {
            string_map::lemma_removed(s.active, id, id);
            lemma_positive_removed(s.active, id);
        } else {
            string_map::lemma_inserted(s.active, id, (s.connections(id) - 1) as usize, id);
            lemma_positive_inserted(s.active, id, (s.connections(id) - 1) as usize);
        }
    }
}

proof fn lemma_forget_wf(s: SessionsView, id: Seq<char>)
    ensures
        s.wf() ==> s.forgotten(id).wf(),
{
    if s.wf() {
        string_map::lemma_removed(s.sessions, id, id);
        string_map::lemma_removed(s.active, id, id);
        lemma_positive_removed(s.active, id);
    }
}

/// Opening a connection adds one to the count of its container and leaves the others alone.
pub proof fn lemma_connect_counts(s: SessionsView, id: Seq<char>, other: Seq<char>)
    requires
        s.connections(id) < usize::MAX,
    ensures
        s.connected(id).connections(id) == s.connections(id) + 1,
        other != id ==> s.connected(id).connections(other) == s.connections(other),
{
    string_map::lemma_inserted(s.active, id, (s.connections(id) + 1) as usize, other);
}

/// Closing a connection takes one from the count of its container, but not below 0, and leaves the
/// others alone.
pub proof fn lemma_disconnect_counts(s: SessionsView, id: Seq<char>, other: Seq<char>)
    ensures
        s.disconnected(id).connections(id) == if s.connections(id) == 0 {
            0
        } else {
            s.connections(id) - 1
        },
        other != id ==> s.disconnected(id).connections(other) == s.connections(other),
{
    if s.connections(id) <= 1 {
        string_map::lemma_removed(s.active, id, other);
    } else {
        string_map::lemma_inserted(s.active, id, (s.connections(id) - 1) as usize, other);
    }
}

/// Closing a connection undoes opening it.
pub proof fn lemma_disconnect_undoes_connect(s: SessionsView, id: Seq<char>)
    requires
        s.wf(),
        s.connections(id) < usize::MAX,
    ensures
        s.connected(id).disconnected(id) == s,
{
    let n = s.connections(id);
    let t = s.connected(id);
    string_map::lemma_position(s.active, id);
    lemma_connect_counts(s, id, id);
    let p = string_map::position(s.active, id);
    if string_map::has_key(s.active, id) {
        assert(s.active[p].1 == n);
        assert(n > 0);
        assert(t.active == s.active.update(p, (id, (n + 1) as usize)));
        assert forall|j: int| 0 <= j < p implies (#[trigger] t.active[j]).0 != id by {
            assert(t.active[j] == s.active[j]);
        }
        string_map::lemma_position_is(t.active, id, p);
        assert(t.disconnected(id).active =~= s.active);
    } else {
        assert(t.active == s.active.push((id, 1usize)));
        let keep = string_map::other_than::<Seq<char>, usize>(id);
        assert(string_map::removed(t.active, id) == s.active) by {
            reveal(Seq::filter);
            assert(t.active.drop_last() == s.active);
            lemma_keep_all(s.active, id);
        }
    }
}

/// Removing a key that is not there changes nothing.
proof fn lemma_keep_all<V>(entries: Seq<(Seq<char>, V)>, id: Seq<char>)
    requires
        !string_map::has_key(entries, id),
    ensures
        string_map::removed(entries, id) == entries,
    decreases entries.len(),
{
    reveal(Seq::filter);
    if entries.len() > 0 {
        let init = entries.drop_last();
        assert(!string_map::has_key(init, id)) by {
            if string_map::has_key(init, id) {
                let i = choose|i: int| 0 <= i < init.len() && (#[trigger] init[i]).0 == id;
                assert(entries[i].0 == id);
            }
        }
        lemma_keep_all(init, id);
        assert(entries[entries.len() - 1].0 != id);
        assert(entries == init.push(entries.last()));
    }
}

/// What is expired: exactly the containers with a session that is over and without connections.
pub proof fn lemma_expired(s: SessionsView, now: Duration, id: Seq<char>)
    requires
        s.wf(),
    ensures
        s.expired(now).contains(id) <==> (s.session(id) matches Some(state) && state.is_over(now)
            && s.connections(id) == 0),
{
    let f = |e: (Seq<char>, SessionState)| s.expiry(e, now);
    sequences::lemma_filter_map_contains(s.sessions, f, id);
    string_map::lemma_position(s.sessions, id);
    if s.expired(now).contains(id) {
        let i = choose|i: int|
            0 <= i < s.sessions.len() && f(#[trigger] s.sessions[i]) == Some(id);
        assert(s.sessions[i].0 == id);
        assert(string_map::has_key(s.sessions, id));
        let p = string_map::position(s.sessions, id);
        if p != i {
            assert(s.sessions[p].0 != s.sessions[i].0);
        }
    }
    if s.session(id) matches Some(state) && state.is_over(now) && s.connections(id) == 0 {
        let p = string_map::position(s.sessions, id);
        assert(f(s.sessions[p]) == Some(id));
    }
}

/// A container with a connection is never expired.
pub proof fn lemma_active_never_expires(s: SessionsView, now: Duration, id: Seq<char>)
    requires
        s.wf(),
        s.connections(id) > 0,
    ensures
        !s.expired(now).contains(id),
{
    lemma_expired(s, now, id);
}

/// An access keeps its container from expiring for as long as the session lasts.
pub proof fn lemma_touch_resets(
    s: SessionsView,
    id: Seq<char>,
    duration: Duration,
    at: Duration,
    now: Duration,
)
    requires
        s.wf(),
        now.total() <= at.total() + duration.total(),
    ensures
        !s.touched(id, duration, at).expired(now).contains(id),
{
    let t = s.touched(id, duration, at);
    lemma_touch_wf(s, id, duration, at);
    string_map::lemma_inserted(s.sessions, id, SessionState { last_access: at, duration }, id);
    lemma_expired(t, now, id);
}

/// A forgotten container has neither a session nor connections; the others keep theirs.
pub proof fn lemma_forgotten(s: SessionsView, id: Seq<char>, other: Seq<char>)
    ensures
        s.forgotten(id).session(id) is None,
        s.forgotten(id).connections(id) == 0,
        other != id ==> s.forgotten(id).session(other) == s.session(other),
        other != id ==> s.forgotten(id).connections(other) == s.connections(other),
{
    string_map::lemma_removed(s.sessions, id, other);
    string_map::lemma_removed(s.active, id, other);
}

/// An access is recorded with its clock and with how long the session lasts; the other sessions and
/// all connections stay as they are.
pub proof fn lemma_touched(
    s: SessionsView,
    id: Seq<char>,
    duration: Duration,
    now: Duration,
    other: Seq<char>,
)
    ensures
        s.touched(id, duration, now).session(id) == Some(
            SessionState { last_access: now, duration },
        ),
        other != id ==> s.touched(id, duration, now).session(other) == s.session(other),
        s.touched(id, duration, now).connections(other) == s.connections(other),
{
    string_map::lemma_inserted(s.sessions, id, SessionState { last_access: now, duration }, other);
}

/// Opening and closing connections leaves every session as it is.
pub proof fn lemma_connections_keep_sessions(s: SessionsView, id: Seq<char>, other: Seq<char>)
    ensures
        s.connected(id).session(other) == s.session(other),
        s.disconnected(id).session(other) == s.session(other),
{
}

/// A container that was asked for at `at` and that nothing is connected to is expired exactly when
/// more time has passed than its session lasts.
pub proof fn lemma_expires_after(
    s: SessionsView,
    id: Seq<char>,
    duration: Duration,
    at: Duration,
    now: Duration,
)
    requires
        s.wf(),
        s.connections(id) == 0,
    ensures
        s.touched(id, duration, at).expired(now).contains(id) <==> now.secs * 1_000_000_000
            + now.nanos > (at.secs + duration.secs) * 1_000_000_000 + at.nanos + duration.nanos,
{
    lemma_touch_wf(s, id, duration, at);
    lemma_touched(s, id, duration, at, id);
    lemma_expired(s.touched(id, duration, at), now, id);
}

/// No container stands twice among those that are expired.
pub proof fn lemma_expired_once(s: SessionsView, now: Duration, i: int, j: int)
    requires
        s.wf(),
        0 <= i < j < s.expired(now).len(),
    ensures
        s.expired(now)[i] != s.expired(now)[j],
{
    lemma_distinct_expiries(s, s.sessions, now);
}

proof fn lemma_distinct_expiries(
    s: SessionsView,
    entries: Seq<(Seq<char>, SessionState)>,
    now: Duration,
)
    requires
        string_map::distinct_keys(entries),
    ensures
        ({
            let f = |e: (Seq<char>, SessionState)| s.expiry(e, now);
            let ids = entries.filter_map(f);
            forall|i: int, j: int| 0 <= i < j < ids.len() ==> #[trigger] ids[i] != #[trigger] ids[j]
        }),
    decreases entries.len(),
{
    reveal(Seq::filter_map);
    if entries.len() > 0 {
        let f = |e: (Seq<char>, SessionState)| s.expiry(e, now);
        let init = entries.drop_last();
        assert forall|i: int, j: int| 0 <= i < j < init.len() implies (#[trigger] init[i]).0 != (
        #[trigger] init[j]).0 by {
            assert(entries[i].0 != entries[j].0);
        }
        lemma_distinct_expiries(s, init, now);
        let before = init.filter_map(f);
        let after = entries.filter_map(f);
        let last = entries.last();
        assert forall|i: int, j: int| 0 <= i < j < after.len() implies #[trigger] after[i]
            != #[trigger] after[j] by {
            if j == before.len() {
                assert(before.contains(before[i]));
                sequences::lemma_filter_map_contains(init, f, before[i]);
                let k = choose|k: int|
                    0 <= k < init.len() && f(#[trigger] init[k]) == Some(before[i]);
                assert(entries[k].0 != entries[entries.len() - 1].0);
            }
        }
    }
}

/// Whether a container is expired is told for each session by itself, in their order.
pub proof fn lemma_expired_in_order(
    a: Seq<(Seq<char>, SessionState)>,
    b: Seq<(Seq<char>, SessionState)>,
    active: Seq<(Seq<char>, usize)>,
    now: Duration,
)
    ensures
        ({
            let expired = |sessions: Seq<(Seq<char>, SessionState)>| (SessionsView {
                sessions,
                active,
            }).expired(now);
            expired(a + b) == expired(a) + expired(b)
        }),
{
    let all = SessionsView { sessions: a + b, active };
    let (x, y) = (SessionsView { sessions: a, active }, SessionsView { sessions: b, active });
    let f = |e: (Seq<char>, SessionState)| all.expiry(e, now);
    assert(f =~= (|e: (Seq<char>, SessionState)| x.expiry(e, now)));
    assert(f =~= (|e: (Seq<char>, SessionState)| y.expiry(e, now)));
    sequences::lemma_filter_map_joined(a, b, f);
}

} // verus!
