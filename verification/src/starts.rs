//! Starting levels one after the other, and a container after them.

use crate::container::{ContainerView, ManagedContainer};
use crate::levels;
use vstd::prelude::*;

verus! {

// ---------------------------------------------------------------------------------------------
// States, events and actions
// ---------------------------------------------------------------------------------------------

/// Why a start of levels failed.
#[derive(Debug, Clone, Copy, PartialEq, Eq, Structural)]
pub enum LevelError {
    /// A member of a level did not come up.
    Member,
    /// The container itself did not come up.
    Target,
    /// The time was over.
    TimedOut,
}

/// How far a start of levels has come.
#[derive(Debug)]
pub enum LevelState {
    /// A level of this size is being started. The others follow, and the container, if any, with
    /// the port to use.
    Level {
        size: usize,
        later: Vec<Vec<(ManagedContainer, Option<String>)>>,
        target: Option<(ManagedContainer, Option<u16>)>,
    },
    /// The container itself is being started.
    Target,
    /// The start is over, one way or the other.
    Finished,
}

/// What happened to a start of levels.
#[derive(Debug)]
pub enum LevelEvent {
    /// The members of the level were waited for: whether each of them came up. The wait may end
    /// with the first that did not.
    Members(Vec<bool>),
    /// The address of the container, where it came up.
    Started(Option<String>),
    /// The time is over.
    TimedOut,
}

/// What is to be done next in a start of levels.
#[derive(Debug)]
pub enum LevelAction {
    /// Start these containers side by side, and wait for each with its condition.
    StartLevel(Vec<(ManagedContainer, Option<String>)>),
    /// Start this container, to be used on this port.
    StartTarget(ManagedContainer, Option<u16>),
    /// All is up; the address of the container, where there is one.
    Ready(Option<String>),
    /// Not all is up. Nothing more is started, and nothing is stopped.
    Fail(LevelError),
}

/// A container to start after the levels, and the port to use.
pub type TargetView = Option<(ContainerView, Option<u16>)>;

/// The mathematical value of a `LevelState`.
#[verifier::ext_equal]
pub enum LevelStateView {
    Level { size: nat, later: Seq<Seq<levels::Member>>, target: TargetView },
    Target,
    Finished,
}

/// The mathematical value of a target.
pub open spec fn target_view(t: Option<(ManagedContainer, Option<u16>)>) -> TargetView {
    match t {
        Some((c, port)) => Some((c@, port)),
        None => None,
    }
}

impl View for LevelState {
    type V = LevelStateView;

    open spec fn view(&self) -> LevelStateView {
        match self {
            LevelState::Level { size, later, target } => LevelStateView::Level {
                size: *size as nat,
                later: later.deep_view(),
                target: target_view(*target),
            },
            LevelState::Target => LevelStateView::Target,
            LevelState::Finished => LevelStateView::Finished,
        }
    }
}

/// The mathematical value of a `LevelEvent`.
#[verifier::ext_equal]
pub enum LevelEventView {
    Members(Seq<bool>),
    Started(Option<Seq<char>>),
    TimedOut,
}

impl View for LevelEvent {
    type V = LevelEventView;

    open spec fn view(&self) -> LevelEventView {
        match self {
            LevelEvent::Members(up) => LevelEventView::Members(up@),
            LevelEvent::Started(addr) => LevelEventView::Started(addr.deep_view()),
            LevelEvent::TimedOut => LevelEventView::TimedOut,
        }
    }
}

/// The mathematical value of a `LevelAction`.
#[verifier::ext_equal]
pub enum LevelActionView {
    StartLevel(Seq<levels::Member>),
    StartTarget(ContainerView, Option<u16>),
    Ready(Option<Seq<char>>),
    Fail(LevelError),
}

impl View for LevelAction {
    type V = LevelActionView;

    open spec fn view(&self) -> LevelActionView {
        match self {
            LevelAction::StartLevel(level) => LevelActionView::StartLevel(level.deep_view()),
            LevelAction::StartTarget(c, port) => LevelActionView::StartTarget(c@, *port),
            LevelAction::Ready(addr) => LevelActionView::Ready(addr.deep_view()),
            LevelAction::Fail(e) => LevelActionView::Fail(*e),
        }
    }
}

// ---------------------------------------------------------------------------------------------
// The course of a start
// ---------------------------------------------------------------------------------------------

/// The next of the levels; after them the container, if there is one.
pub open spec fn begin(ls: Seq<Seq<levels::Member>>, target: TargetView) -> (
    LevelStateView,
    LevelActionView,
) {
    if ls.len() > 0 {
        (
            LevelStateView::Level { size: ls[0].len(), later: ls.skip(1), target },
            LevelActionView::StartLevel(ls[0]),
        )
    } else {
        match target {
            Some((c, port)) => (LevelStateView::Target, LevelActionView::StartTarget(c, port)),
            None => (LevelStateView::Finished, LevelActionView::Ready(None)),
        }
    }
}

/// The end of a start that failed.
pub open spec fn failed(e: LevelError) -> (LevelStateView, LevelActionView) {
    (LevelStateView::Finished, LevelActionView::Fail(e))
}

/// All members of a level came up.
pub open spec fn all_up(up: Seq<bool>, size: nat) -> bool {
    up.len() == size && forall|i: int| 0 <= i < up.len() ==> #[trigger] up[i]
}

/// The next step of a start: after a level whose members all came up the next one, and after the
/// last one the container. Where a member or the container does not come up, or the time is over,
/// the start has failed.
pub open spec fn next(state: LevelStateView, event: LevelEventView) -> (
    LevelStateView,
    LevelActionView,
) {
    match (state, event) {
        (LevelStateView::Finished, _) => failed(LevelError::Member),
        (_, LevelEventView::TimedOut) => failed(LevelError::TimedOut),
        (
            LevelStateView::Level { size, later, target },
            LevelEventView::Members(up),
        ) => if all_up(up, size) {
            begin(later, target)
        } else {
            failed(LevelError::Member)
        },
        (LevelStateView::Level { .. }, _) => failed(LevelError::Member),
        (LevelStateView::Target, LevelEventView::Started(Some(addr))) => (
            LevelStateView::Finished,
            LevelActionView::Ready(Some(addr)),
        ),
        (LevelStateView::Target, _) => failed(LevelError::Target),
    }
}

/// Begins to start levels, and after them a container.
pub fn start_levels(
    levels: Vec<Vec<(ManagedContainer, Option<String>)>>,
    target: Option<(ManagedContainer, Option<u16>)>,
) -> (r: (LevelState, LevelAction))
    ensures
        (r.0@, r.1@) == begin(levels.deep_view(), target_view(target)),
{
    let ghost all = levels.deep_view();
    assert(all.len() == levels@.len());
    let mut later: Vec<Vec<(ManagedContainer, Option<String>)>> = levels;
    if later.len() > 0 {
        let level: Vec<(ManagedContainer, Option<String>)> = later.remove(0);
        assert(level.deep_view() == all[0]);
        assert(later.deep_view() == all.skip(1));
        let size: usize = level.len();
        (LevelState::Level { size, later, target }, LevelAction::StartLevel(level))
    } else {
        match target {
            Some((c, port)) => (LevelState::Target, LevelAction::StartTarget(c, port)),
            None => (LevelState::Finished, LevelAction::Ready(None)),
        }
    }
}

/// Whether all members of a level came up.
fn are_up(up: &Vec<bool>, size: usize) -> (r: bool)
    ensures
        r == all_up(up@, size as nat),
{
    if up.len() != size {
        return false;
    }
    let mut i: usize = 0;
    while i < up.len()
        invariant
            i <= up@.len(),
            forall|j: int| 0 <= j < i ==> #[trigger] up@[j],
        decreases up.len() - i,
    {
        if !up[i] {
            return false;
        }
        i = i + 1;
    }
    true
}

/// Goes on with a start of levels.
pub fn start_levels_step(state: LevelState, event: LevelEvent) -> (r: (LevelState, LevelAction))
    ensures
        (r.0@, r.1@) == next(state@, event@),
{
    match state {
        LevelState::Finished => (LevelState::Finished, LevelAction::Fail(LevelError::Member)),
        LevelState::Level { size, later, target } => match event {
            LevelEvent::TimedOut => (LevelState::Finished, LevelAction::Fail(LevelError::TimedOut)),
            LevelEvent::Members(up) => if are_up(&up, size) {
                start_levels(later, target)
            } else {
                (LevelState::Finished, LevelAction::Fail(LevelError::Member))
            },
            _ => (LevelState::Finished, LevelAction::Fail(LevelError::Member)),
        },
        LevelState::Target => match event {
            LevelEvent::TimedOut => (LevelState::Finished, LevelAction::Fail(LevelError::TimedOut)),
            LevelEvent::Started(Some(addr)) => (
                LevelState::Finished,
                LevelAction::Ready(Some(addr)),
            ),
            _ => (LevelState::Finished, LevelAction::Fail(LevelError::Target)),
        },
    }
}

// ---------------------------------------------------------------------------------------------
// Laws
// ---------------------------------------------------------------------------------------------

/// Where a start stands after these answers of its levels.
pub open spec fn after(
    ls: Seq<Seq<levels::Member>>,
    target: TargetView,
    answers: Seq<Seq<bool>>,
) -> (LevelStateView, LevelActionView)
    decreases answers.len(),
{
    if answers.len() == 0 {
        begin(ls, target)
    } else {
        next(
            after(ls, target, answers.drop_last()).0,
            LevelEventView::Members(answers.last()),
        )
    }
}

/// The first `n` levels came up.
pub open spec fn came_up(
    ls: Seq<Seq<levels::Member>>,
    answers: Seq<Seq<bool>>,
    n: int,
) -> bool {
    forall|i: int| 0 <= i < n ==> all_up(#[trigger] answers[i], ls[i].len())
}

/// While every level comes up, the next one is started, in order; and after the last one the
/// container, where there is one.
pub proof fn lemma_level_after_level(
    ls: Seq<Seq<levels::Member>>,
    target: TargetView,
    answers: Seq<Seq<bool>>,
)
    requires
        answers.len() <= ls.len(),
        came_up(ls, answers, answers.len() as int),
    ensures
        after(ls, target, answers) == begin(ls.skip(answers.len() as int), target),
    decreases answers.len(),
{
    if answers.len() == 0 {
        assert(ls.skip(0) == ls);
    } else {
        let init = answers.drop_last();
        assert(came_up(ls, init, init.len() as int)) by {
            assert forall|i: int| 0 <= i < init.len() implies all_up(
                #[trigger] init[i],
                ls[i].len(),
            ) by {
                assert(all_up(answers[i], ls[i].len()));
            }
        }
        lemma_level_after_level(ls, target, init);
        let n = init.len() as int;
        assert(all_up(answers[n], ls[n].len()));
        assert(ls.skip(n)[0] == ls[n]);
        assert(ls.skip(n).skip(1) == ls.skip(n + 1));
    }
}

/// Where a level does not come up, the start fails, and nothing is started any more: no later
/// level, and not the container.
pub proof fn lemma_failed_level_ends(
    ls: Seq<Seq<levels::Member>>,
    target: TargetView,
    answers: Seq<Seq<bool>>,
    i: int,
)
    requires
        0 <= i < answers.len(),
        i < ls.len(),
        came_up(ls, answers, i),
        !all_up(answers[i], ls[i].len()),
    ensures
        after(ls, target, answers) == failed(LevelError::Member),
    decreases answers.len(),
{
    let init = answers.drop_last();
    if i == answers.len() - 1 {
        assert(came_up(ls, init, init.len() as int)) by {
            assert forall|j: int| 0 <= j < init.len() implies all_up(
                #[trigger] init[j],
                ls[j].len(),
            ) by {
                assert(all_up(answers[j], ls[j].len()));
            }
        }
        lemma_level_after_level(ls, target, init);
        assert(ls.skip(i)[0] == ls[i]);
    } else {
        assert(came_up(ls, init, i)) by {
            assert forall|j: int| 0 <= j < i implies all_up(#[trigger] init[j], ls[j].len()) by {
                assert(all_up(answers[j], ls[j].len()));
            }
        }
        assert(init[i] == answers[i]);
        lemma_failed_level_ends(ls, target, init, i);
    }
}

/// The container is started, and a start without one is ready, only after all levels came up.
pub proof fn lemma_all_levels_before(
    ls: Seq<Seq<levels::Member>>,
    target: TargetView,
    answers: Seq<Seq<bool>>,
)
    requires
        ({
            let action = after(ls, target, answers).1;
            action is StartTarget || action is Ready
        }),
    ensures
        answers.len() >= ls.len(),
        came_up(ls, answers, ls.len() as int),
{
    let n = if answers.len() < ls.len() {
        answers.len() as int
    } else {
        ls.len() as int
    };
    if !came_up(ls, answers, n) {
        lemma_first_failure(ls, answers, n);
        let i = choose|i: int|
            0 <= i < n && came_up(ls, answers, i) && !all_up(#[trigger] answers[i], ls[i].len());
        lemma_failed_level_ends(ls, target, answers, i);
    } else if answers.len() < ls.len() {
        lemma_level_after_level(ls, target, answers);
    }
}

/// Where not all levels came up, there is a first that did not.
proof fn lemma_first_failure(ls: Seq<Seq<levels::Member>>, answers: Seq<Seq<bool>>, n: int)
    requires
        0 <= n,
        !came_up(ls, answers, n),
    ensures
        exists|i: int|
            0 <= i < n && came_up(ls, answers, i) && !all_up(#[trigger] answers[i], ls[i].len()),
    decreases n,
{
    if n > 0 {
        if came_up(ls, answers, n - 1) {
            assert(!all_up(answers[n - 1], ls[n - 1].len()));
        } else {
            lemma_first_failure(ls, answers, n - 1);
        }
    }
}

/// When the time is over, a start that is not over fails; and a start that is over starts nothing
/// any more, whatever happens.
pub proof fn lemma_timeout_ends(state: LevelStateView, event: LevelEventView)
    ensures
        !(state is Finished) ==> next(state, LevelEventView::TimedOut) == failed(
            LevelError::TimedOut,
        ),
        state is Finished ==> next(state, event).0 is Finished && next(state, event).1 is Fail,
{
}

/// A container that does not come up makes the start fail, and one that does is ready at its
/// address.
pub proof fn lemma_target_decides(addr: Seq<char>)
    ensures
        next(LevelStateView::Target, LevelEventView::Started(None)) == failed(LevelError::Target),
        next(LevelStateView::Target, LevelEventView::Started(Some(addr))) == (
            LevelStateView::Finished,
            LevelActionView::Ready(Some(addr)),
        ),
{
}

} // verus!
