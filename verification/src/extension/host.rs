//! Starting, running and stopping the scopes of the engine and of the pipeline groups.
//!
//! The engine's scope starts before those of the groups and stops after them. The functions
//! here decide; the caller performs each action and hands back what came of it.

use vstd::prelude::*;
use vstd::string::*;

use super::hierarchy::HierarchyError;
use crate::text;

verus! {

/// What a starting host has to do next.
#[derive(Debug)]
pub enum StartAction {
    /// Start the engine's scope and wait until it is ready.
    StartEngine,
    /// Start the scopes of all groups and wait until they are ready.
    StartGroups,
    /// Install the catalog.
    Install,
    /// Stop the scopes of all groups.
    StopGroups,
    /// Stop the engine's scope.
    StopEngine,
    /// The host runs.
    Running,
    /// The host has stopped all it started.
    Failed(HierarchyError),
    /// Nothing is left to do.
    Idle,
}

/// How far a starting host has come.
#[derive(Debug)]
pub enum StartPhase {
    EngineStarting,
    GroupsStarting,
    Installing,
    StoppingGroups(HierarchyError),
    StoppingEngine(HierarchyError),
    Running,
    Failed,
}

/// A host that is starting.
#[derive(Debug)]
pub struct HostStart {
    pub has_engine: bool,
    pub phase: StartPhase,
}

/// The first phase and action of a host.
pub open spec fn start_first(has_engine: bool) -> (StartPhase, StartAction) {
    if has_engine {
        (StartPhase::EngineStarting, StartAction::StartEngine)
    } else {
        (StartPhase::GroupsStarting, StartAction::StartGroups)
    }
}

/// The next phase and action of a host whose last action had that outcome.
pub open spec fn start_next(
    has_engine: bool,
    phase: StartPhase,
    outcome: Result<(), HierarchyError>,
) -> (StartPhase, StartAction) {
    match (phase, outcome) {
        (StartPhase::EngineStarting, Ok(_)) => (
            StartPhase::GroupsStarting,
            StartAction::StartGroups,
        ),
        (StartPhase::EngineStarting, Err(e)) => (
            StartPhase::StoppingEngine(e),
            StartAction::StopEngine,
        ),
        (StartPhase::GroupsStarting, Ok(_)) => (StartPhase::Installing, StartAction::Install),
        (StartPhase::Installing, Ok(_)) => (StartPhase::Running, StartAction::Running),
        (StartPhase::GroupsStarting, Err(e)) | (StartPhase::Installing, Err(e)) => (
            StartPhase::StoppingGroups(e),
            StartAction::StopGroups,
        ),
        (StartPhase::StoppingGroups(e), _) => if has_engine {
            (StartPhase::StoppingEngine(e), StartAction::StopEngine)
        } else {
            (StartPhase::Failed, StartAction::Failed(e))
        },
        (StartPhase::StoppingEngine(e), _) => (StartPhase::Failed, StartAction::Failed(e)),
        (StartPhase::Running, _) => (StartPhase::Running, StartAction::Idle),
        (StartPhase::Failed, _) => (StartPhase::Failed, StartAction::Idle),
    }
}

impl HostStart {
    /// A host with or without a scope of the engine, and its first action.
    pub fn new(has_engine: bool) -> (r: (Self, StartAction))
        ensures
            r.0.has_engine == has_engine,
            (r.0.phase, r.1) == start_first(has_engine),
    {
        if has_engine {
            (
                HostStart { has_engine, phase: StartPhase::EngineStarting },
                StartAction::StartEngine,
            )
        } else {
            (
                HostStart { has_engine, phase: StartPhase::GroupsStarting },
                StartAction::StartGroups,
            )
        }
    }

    /// Takes the outcome of the last action and says what comes next. The outcome of stopping
    /// a scope does not matter.
    pub fn start(self, outcome: Result<(), HierarchyError>) -> (r: (Self, StartAction))
        ensures
            r.0.has_engine == self.has_engine,
            (r.0.phase, r.1) == start_next(self.has_engine, self.phase, outcome),
    {
        let has_engine: bool = self.has_engine;
        let (phase, action): (StartPhase, StartAction) = match self.phase {
            StartPhase::EngineStarting => match outcome {
                Ok(_) => (StartPhase::GroupsStarting, StartAction::StartGroups),
                Err(e) => (StartPhase::StoppingEngine(e), StartAction::StopEngine),
            },
            StartPhase::GroupsStarting => match outcome {
                Ok(_) => (StartPhase::Installing, StartAction::Install),
                Err(e) => (StartPhase::StoppingGroups(e), StartAction::StopGroups),
            },
            StartPhase::Installing => match outcome {
                Ok(_) => (StartPhase::Running, StartAction::Running),
                Err(e) => (StartPhase::StoppingGroups(e), StartAction::StopGroups),
            },
            StartPhase::StoppingGroups(e) => {
                if has_engine {
                    (StartPhase::StoppingEngine(e), StartAction::StopEngine)
                } else {
                    (StartPhase::Failed, StartAction::Failed(e))
                }
            },
            StartPhase::StoppingEngine(e) => (StartPhase::Failed, StartAction::Failed(e)),
            StartPhase::Running => (StartPhase::Running, StartAction::Idle),
            StartPhase::Failed => (StartPhase::Failed, StartAction::Idle),
        };
        (HostStart { has_engine, phase }, action)
    }
}

/// The phases of a host whose actions had those outcomes, one after another.
pub open spec fn start_run(has_engine: bool, outcomes: Seq<Result<(), HierarchyError>>) -> (
    StartPhase,
    StartAction,
)
    decreases outcomes.len(),
{
    if outcomes.len() == 0 {
        start_first(has_engine)
    } else {
        start_next(has_engine, start_run(has_engine, outcomes.drop_last()).0, outcomes.last())
    }
}

/// The groups start only after the engine's scope became ready.
pub proof fn engine_is_ready_first(
    has_engine: bool,
    outcomes: Seq<Result<(), HierarchyError>>,
)
    requires
        has_engine,
        start_run(has_engine, outcomes).1 is StartGroups,
    ensures
        outcomes.len() == 1,
        outcomes[0] is Ok,
{
    let before = outcomes.drop_last();
    reveal_with_fuel(start_run, 2);
    if outcomes.len() > 0 {
        lemma_start_phases(has_engine, before);
    }
}

/// A host runs only after every scope became ready and the catalog was installed.
pub proof fn running_means_all_ready(
    has_engine: bool,
    outcomes: Seq<Result<(), HierarchyError>>,
)
    requires
        start_run(has_engine, outcomes).1 is Running,
    ensures
        outcomes.len() == (if has_engine {
            3int
        } else {
            2int
        }),
        forall|i: int| 0 <= i < outcomes.len() ==> (#[trigger] outcomes[i]) is Ok,
{
    lemma_start_phases(has_engine, outcomes.drop_last());
    assert forall|i: int| 0 <= i < outcomes.len() implies (#[trigger] outcomes[i]) is Ok by {
        if i < outcomes.len() - 1 {
            assert(outcomes.drop_last()[i] == outcomes[i]);
        }
    }
}

/// After a failure the groups stop before the engine: once the groups were started, the
/// engine's scope is stopped only after they were.
pub proof fn failed_start_stops_groups_first(
    has_engine: bool,
    outcomes: Seq<Result<(), HierarchyError>>,
)
    requires
        outcomes.len() > 1,
        start_run(has_engine, outcomes).1 is StopEngine,
    ensures
        start_run(has_engine, outcomes.drop_last()).1 is StopGroups,
{
    lemma_start_phases(has_engine, outcomes.drop_last());
}

/// A start that fails is answered with the error of the action that failed.
pub proof fn failed_start_reports_the_failure(
    has_engine: bool,
    outcomes: Seq<Result<(), HierarchyError>>,
    at: int,
)
    requires
        start_run(has_engine, outcomes).1 is Failed,
        0 <= at < outcomes.len(),
        outcomes[at] is Err,
        forall|i: int| 0 <= i < at ==> (#[trigger] outcomes[i]) is Ok,
    ensures
        start_run(has_engine, outcomes).1->Failed_0 == outcomes[at]->Err_0,
{
    lemma_start_phases(has_engine, outcomes.drop_last());
    let before = outcomes.drop_last();
    match start_run(has_engine, before).0 {
        StartPhase::StoppingGroups(e) | StartPhase::StoppingEngine(e) => {
            let k = choose|k: int|
                0 <= k < before.len() && #[trigger] before[k] == Err::<(), HierarchyError>(e) && (
                forall|i: int| 0 <= i < k ==> (#[trigger] before[i]) is Ok);
            assert(before[k] == outcomes[k]);
            if at < k {
                assert(before[at] is Ok);
            }
            if k < at {
                assert(outcomes[k] is Ok);
            }
        },
        _ => {},
    }
}

/// A start that fails has stopped all that it started: the groups, if they were started, and
/// the engine's scope, if it was.
pub proof fn failed_start_stops_all_it_started(
    has_engine: bool,
    outcomes: Seq<Result<(), HierarchyError>>,
    at: int,
)
    requires
        start_run(has_engine, outcomes).1 is Failed,
        0 <= at < outcomes.len(),
    ensures
        start_run(has_engine, outcomes.take(at)).1 is StartGroups ==> exists|k: int|
            at < k < outcomes.len() && (#[trigger] start_run(
                has_engine,
                outcomes.take(k),
            )).1 is StopGroups,
        start_run(has_engine, outcomes.take(at)).1 is StartEngine ==> exists|k: int|
            at < k < outcomes.len() && (#[trigger] start_run(
                has_engine,
                outcomes.take(k),
            )).1 is StopEngine,
{
    let n = outcomes.len() - 1;
    assert(outcomes.drop_last() =~= outcomes.take(n));
    lemma_start_phases(has_engine, outcomes.take(n));
    lemma_start_phases(has_engine, outcomes.take(at));
    if n > 0 {
        assert(outcomes.take(n).drop_last() =~= outcomes.take(n - 1));
        lemma_start_phases(has_engine, outcomes.take(n - 1));
    }
    if at > 0 {
        lemma_start_phases(has_engine, outcomes.take(at).drop_last());
    }
}

/// A start of which nothing fails ends with a host that runs, after the engine's scope, if there
/// is one, the groups and the catalog.
pub proof fn start_without_failure_succeeds(
    has_engine: bool,
    outcomes: Seq<Result<(), HierarchyError>>,
)
    requires
        outcomes.len() == (if has_engine {
            3int
        } else {
            2int
        }),
        forall|i: int| 0 <= i < outcomes.len() ==> (#[trigger] outcomes[i]) is Ok,
    ensures
        start_run(has_engine, outcomes).1 is Running,
{
    assert(outcomes[outcomes.len() - 1] is Ok && outcomes[outcomes.len() - 2] is Ok);
    let one = outcomes.drop_last();
    let two = one.drop_last();
    assert(one.last() == outcomes[outcomes.len() - 2]);
    if has_engine {
        assert(outcomes[0] is Ok);
        assert(two.last() == outcomes[0]);
        assert(two.drop_last().len() == 0);
    }
    reveal_with_fuel(start_run, 4);
}

/// A start of which something fails ends as failed, once what was started is stopped: after two
/// steps if that is the engine's scope alone, and else after one for the groups and one for the
/// engine's scope, if there is one.
pub proof fn start_with_a_failure_ends(
    has_engine: bool,
    outcomes: Seq<Result<(), HierarchyError>>,
    at: int,
)
    requires
        0 <= at < (if has_engine {
            3int
        } else {
            2int
        }),
        outcomes.len() == at + 2 + (if has_engine && at > 0 {
            1int
        } else {
            0int
        }),
        outcomes[at] is Err,
        forall|i: int| 0 <= i < at ==> (#[trigger] outcomes[i]) is Ok,
    ensures
        start_run(has_engine, outcomes).1 == StartAction::Failed(outcomes[at]->Err_0),
{
    let a = outcomes.drop_last();
    let b = a.drop_last();
    let c = b.drop_last();
    let d = c.drop_last();
    assert(a.last() == outcomes[outcomes.len() - 2]);
    if outcomes.len() > 2 {
        assert(b.last() == outcomes[outcomes.len() - 3]);
    }
    if outcomes.len() > 3 {
        assert(c.last() == outcomes[outcomes.len() - 4]);
    }
    if outcomes.len() > 4 {
        assert(d.last() == outcomes[0]);
    }
    if at > 0 {
        assert(outcomes[0] is Ok);
    }
    if at > 1 {
        assert(outcomes[1] is Ok);
    }
    reveal_with_fuel(start_run, 6);
}

/// A host that runs has stopped nothing: its scopes and the catalog are as they were started.
pub proof fn running_host_stopped_nothing(
    has_engine: bool,
    outcomes: Seq<Result<(), HierarchyError>>,
    at: int,
)
    requires
        start_run(has_engine, outcomes).1 is Running,
        0 <= at < outcomes.len(),
    ensures
        !(start_run(has_engine, outcomes.take(at)).1 is StopGroups),
        !(start_run(has_engine, outcomes.take(at)).1 is StopEngine),
        start_run(has_engine, outcomes.take(outcomes.len() - 1)).1 is Install,
        start_run(has_engine, outcomes.take(outcomes.len() - 2)).1 is StartGroups,
        has_engine ==> start_run(has_engine, outcomes.take(0)).1 is StartEngine,
{
    running_means_all_ready(has_engine, outcomes);
    let n = outcomes.len() as int;
    assert(outcomes.drop_last() =~= outcomes.take(n - 1));
    assert(outcomes.take(n - 1).drop_last() =~= outcomes.take(n - 2));
    lemma_start_phases(has_engine, outcomes.take(at));
    lemma_start_phases(has_engine, outcomes.take(n - 1));
    lemma_start_phases(has_engine, outcomes.take(n - 2));
    assert forall|i: int| 0 <= i < at implies (#[trigger] outcomes.take(at)[i]) is Ok by {
        assert(outcomes[i] is Ok);
    }
}

/// What the phase says of the outcomes so far.
proof fn lemma_start_phases(has_engine: bool, outcomes: Seq<Result<(), HierarchyError>>)
    ensures
        ({
            let (phase, action) = start_run(has_engine, outcomes);
            let first = if has_engine {
                1int
            } else {
                0int
            };
            match phase {
                StartPhase::EngineStarting => has_engine && outcomes.len() == 0,
                StartPhase::GroupsStarting => action is StartGroups && outcomes.len() == first && (
                forall|i: int| 0 <= i < outcomes.len() ==> (#[trigger] outcomes[i]) is Ok),
                StartPhase::Installing => action is Install && outcomes.len() == first + 1 && (
                forall|i: int| 0 <= i < outcomes.len() ==> (#[trigger] outcomes[i]) is Ok),
                StartPhase::StoppingGroups(e) => action is StopGroups && outcomes.len() > first
                    && (exists|k: int|
                    0 <= k < outcomes.len() && #[trigger] outcomes[k] == Err::<
                        (),
                        HierarchyError,
                    >(e) && (forall|i: int| 0 <= i < k ==> (#[trigger] outcomes[i]) is Ok)),
                StartPhase::StoppingEngine(e) => has_engine && action is StopEngine && (exists|
                    k: int,
                |
                    0 <= k < outcomes.len() && #[trigger] outcomes[k] == Err::<
                        (),
                        HierarchyError,
                    >(e) && (forall|i: int| 0 <= i < k ==> (#[trigger] outcomes[i]) is Ok)),
                StartPhase::Running => outcomes.len() > 0,
                StartPhase::Failed => outcomes.len() > 0,
            }
        }),
    decreases outcomes.len(),
{
    if outcomes.len() > 0 {
        let before = outcomes.drop_last();
        lemma_start_phases(has_engine, before);
        let phase = start_run(has_engine, before).0;
        assert forall|i: int| 0 <= i < before.len() implies outcomes[i] == #[trigger] before[i] by {
        }
        match phase {
            StartPhase::StoppingGroups(e) => {
                let k = choose|k: int|
                    0 <= k < before.len() && #[trigger] before[k] == Err::<(), HierarchyError>(e)
                        && (forall|i: int| 0 <= i < k ==> (#[trigger] before[i]) is Ok);
                assert(outcomes[k] == before[k]);
                assert forall|i: int| 0 <= i < k implies (#[trigger] outcomes[i]) is Ok by {
                    assert(before[i] is Ok);
                }
            },
            StartPhase::EngineStarting | StartPhase::GroupsStarting | StartPhase::Installing => {
                assert forall|i: int| 0 <= i < before.len() implies (
                #[trigger] outcomes[i]) is Ok by {
                    assert(before[i] is Ok);
                }
                if outcomes.last() is Err {
                    let k = outcomes.len() - 1;
                    assert(outcomes[k] == Err::<(), HierarchyError>(outcomes.last()->Err_0));
                }
            },
            _ => {},
        }
    }
}

/// How far a running host has come.
#[derive(Debug, Clone, Copy, PartialEq, Eq, Structural)]
pub enum HostPhase {
    /// All scopes run.
    Serving,
    /// A scope has failed; the others run until the host is asked to shut down.
    Failing,
    StoppingGroups,
    StoppingEngine,
    Finished,
}

/// What happens to a running host.
#[derive(Debug)]
pub enum HostEvent {
    /// The host is asked to shut down.
    ShutdownRequested,
    /// A scope has ended.
    ScopeEnded { index: usize, result: Result<(), HierarchyError> },
    /// The task of a scope was canceled or panicked. A task that is not known counts as the
    /// first.
    TaskLost { scope: Option<usize>, is_canceled: bool, is_panic: bool, error: String },
    /// No task is left.
    NoTasks,
}

/// What a running host has to do next.
#[derive(Debug)]
pub enum HostAction {
    /// Wait for a shutdown request or for a scope to end.
    Wait,
    /// Report the first error, then wait for a shutdown request.
    NotifyFailure,
    /// Ask those scopes to stop, then wait for a scope to end.
    Stop(Vec<usize>),
    /// Wait for a scope to end.
    AwaitScope,
    /// All is done.
    Finish,
}

/// An action as mathematics.
pub enum ActionView {
    Wait,
    NotifyFailure,
    Stop(Seq<usize>),
    AwaitScope,
    Finish,
}

impl View for HostAction {
    type V = ActionView;

    open spec fn view(&self) -> ActionView {
        match *self {
            HostAction::Wait => ActionView::Wait,
            HostAction::NotifyFailure => ActionView::NotifyFailure,
            HostAction::Stop(scopes) => ActionView::Stop(scopes@),
            HostAction::AwaitScope => ActionView::AwaitScope,
            HostAction::Finish => ActionView::Finish,
        }
    }
}

/// A running host as mathematics. The scope of the engine, if there is one, is the first.
pub struct HostView {
    pub has_engine: bool,
    /// Which scopes have ended.
    pub ended: Seq<bool>,
    /// Which scopes were asked to stop or have ended.
    pub asked: Seq<bool>,
    pub first_error: Option<HierarchyError>,
    pub phase: HostPhase,
}

/// The message for a scope that ends by itself.
pub open spec fn early_exit_text(index: nat) -> Seq<char> {
    "hierarchical extension scope "@ + text::digits(index) + " exited before host shutdown"@
}

/// The positions from `from` that are not asked, in order.
pub open spec fn unasked(asked: Seq<bool>, from: int) -> Seq<usize>
    decreases asked.len(),
{
    if asked.len() <= from || asked.len() == 0 {
        Seq::empty()
    } else if asked.last() {
        unasked(asked.drop_last(), from)
    } else {
        unasked(asked.drop_last(), from).push((asked.len() - 1) as usize)
    }
}

/// Everything from position `from` is marked.
pub open spec fn all_from(marks: Seq<bool>, from: int) -> bool {
    forall|i: int| from <= i < marks.len() ==> #[trigger] marks[i]
}

/// Everything from position `from` is marked now.
pub open spec fn marked_from(marks: Seq<bool>, from: int) -> Seq<bool> {
    Seq::new(marks.len(), |i: int| marks[i] || from <= i)
}

impl HostView {
    /// The position of the first group's scope.
    pub open spec fn groups_from(self) -> int {
        if self.has_engine {
            1
        } else {
            0
        }
    }

    /// The scope that the event ends.
    pub open spec fn ending(self, event: HostEvent) -> Option<int> {
        match event {
            HostEvent::ScopeEnded { index, .. } => Some(index as int),
            HostEvent::TaskLost { scope, .. } => {
                let at = match scope {
                    Some(i) => i as int,
                    None => 0,
                };
                if at < self.ended.len() {
                    Some(at)
                } else {
                    None
                }
            },
            _ => None,
        }
    }

    /// The host after the scope that the event ends is marked.
    pub open spec fn noted(self, event: HostEvent) -> HostView {
        match self.ending(event) {
            Some(i) => HostView {
                ended: self.ended.update(i, true),
                asked: self.asked.update(i, true),
                ..self
            },
            None => self,
        }
    }

    /// The error that the end of a scope brings: its own, or that it ended by itself although
    /// nothing asked it to.
    pub open spec fn brings(self, event: HostEvent, e: Option<HierarchyError>) -> bool {
        match event {
            HostEvent::ScopeEnded { index, result } => match result {
                Err(own) => e == Some(own),
                Ok(_) => if self.asked[index as int] && !(self.phase is Serving) {
                    e is None
                } else {
                    e matches Some(HierarchyError::InternalError { message }) && message@
                        == early_exit_text(index as nat)
                },
            },
            HostEvent::TaskLost { scope, is_canceled, is_panic, error } => e == Some(
                HierarchyError::JoinTaskError { is_canceled, is_panic, error },
            ),
            _ => e is None,
        }
    }

    /// The host with that error, unless it has one already.
    pub open spec fn blamed(self, e: Option<HierarchyError>) -> HostView {
        HostView {
            first_error: if self.first_error is Some {
                self.first_error
            } else {
                e
            },
            ..self
        }
    }

    /// The engine's scope stops, now that the groups have.
    pub open spec fn stop_engine(self) -> (HostView, ActionView) {
        if self.has_engine && !self.ended[0] {
            (
                HostView {
                    asked: self.asked.update(0, true),
                    phase: HostPhase::StoppingEngine,
                    ..self
                },
                ActionView::Stop(seq![0usize]),
            )
        } else {
            (HostView { phase: HostPhase::Finished, ..self }, ActionView::Finish)
        }
    }

    /// The groups stop.
    pub open spec fn stop_groups(self) -> (HostView, ActionView) {
        let from = self.groups_from();
        let now = HostView {
            asked: marked_from(self.asked, from),
            phase: HostPhase::StoppingGroups,
            ..self
        };
        if all_from(self.ended, from) {
            now.stop_engine()
        } else {
            (now, ActionView::Stop(unasked(self.asked, from)))
        }
    }

    /// The next state and action after the event, which brought that error.
    pub open spec fn next(self, event: HostEvent, e: Option<HierarchyError>) -> (
        HostView,
        ActionView,
    ) {
        let now = self.noted(event).blamed(e);
        match (self.phase, event) {
            (HostPhase::Serving, HostEvent::ShutdownRequested) => self.stop_groups(),
            (HostPhase::Serving, HostEvent::NoTasks) => (self, ActionView::Wait),
            (HostPhase::Serving, _) => (
                HostView { phase: HostPhase::Failing, ..now },
                ActionView::NotifyFailure,
            ),
            (HostPhase::Failing, HostEvent::ShutdownRequested) => self.stop_groups(),
            (HostPhase::Failing, _) => (now, ActionView::Wait),
            (HostPhase::StoppingGroups, HostEvent::NoTasks) => now.stop_engine(),
            (HostPhase::StoppingGroups, _) => if all_from(now.ended, now.groups_from()) {
                now.stop_engine()
            } else {
                (now, ActionView::AwaitScope)
            },
            (HostPhase::StoppingEngine, HostEvent::NoTasks) => (
                HostView { phase: HostPhase::Finished, ..now },
                ActionView::Finish,
            ),
            (HostPhase::StoppingEngine, _) => if now.ended[0] {
                (HostView { phase: HostPhase::Finished, ..now }, ActionView::Finish)
            } else {
                (now, ActionView::AwaitScope)
            },
            (HostPhase::Finished, _) => (now, ActionView::Finish),
        }
    }

    /// There is a mark for each scope, and a scope of the engine if it is said so.
    pub open spec fn wf(self) -> bool {
        &&& self.ended.len() == self.asked.len()
        &&& self.has_engine ==> self.ended.len() > 0
        &&& self.ended.len() <= usize::MAX
        &&& self.phase is StoppingEngine ==> self.has_engine
    }
}

/// A running host.
#[derive(Debug)]
pub struct RunningHierarchicalExtensionHost {
    has_engine: bool,
    ended: Vec<bool>,
    asked: Vec<bool>,
    first_error: Option<HierarchyError>,
    phase: HostPhase,
}

impl View for RunningHierarchicalExtensionHost {
    type V = HostView;

    closed spec fn view(&self) -> HostView {
        HostView {
            has_engine: self.has_engine,
            ended: self.ended@,
            asked: self.asked@,
            first_error: self.first_error,
            phase: self.phase,
        }
    }
}

/// Whether everything from position `from` is marked.
fn are_all_from(marks: &Vec<bool>, from: usize) -> (r: bool)
    ensures
        r == all_from(marks@, from as int),
{
    let mut i: usize = from;
    while i < marks.len()
        invariant
            from <= i,
            forall|j: int| from <= j < i && j < marks@.len() ==> #[trigger] marks@[j],
        decreases marks@.len() - i,
    {
        if !marks[i] {
            return false;
        }
        i = i + 1;
    }
    true
}

impl RunningHierarchicalExtensionHost {
    /// A host whose scopes all run.
    pub fn new(has_engine: bool, groups: usize) -> (r: Self)
        requires
            groups < usize::MAX,
        ensures
            r@.wf(),
            r@.has_engine == has_engine,
            r@.ended.len() == groups + r@.groups_from(),
            forall|i: int| 0 <= i < r@.ended.len() ==> !#[trigger] r@.ended[i],
            r@.asked == r@.ended,
            r@.first_error is None,
            r@.phase is Serving,
    {
        let scopes: usize = if has_engine {
            groups + 1
        } else {
            groups
        };
        let mut ended: Vec<bool> = Vec::new();
        let mut asked: Vec<bool> = Vec::new();
        let mut i: usize = 0;
        while i < scopes
            invariant
                i <= scopes,
                ended@.len() == i,
                asked@ == ended@,
                forall|j: int| 0 <= j < i ==> !#[trigger] ended@[j],
            decreases scopes - i,
        {
            ended.push(false);
            asked.push(false);
            i = i + 1;
        }
        RunningHierarchicalExtensionHost {
            has_engine,
            ended,
            asked,
            first_error: None,
            phase: HostPhase::Serving,
        }
    }

    /// The number of scopes.
    pub fn scopes(&self) -> (n: usize)
        ensures
            n == self@.ended.len(),
    {
        self.ended.len()
    }

    /// The error that will be reported.
    pub fn first_error(&self) -> (r: Option<&HierarchyError>)
        ensures
            match r {
                Some(e) => self@.first_error == Some(*e),
                None => self@.first_error is None,
            },
    {
        self.first_error.as_ref()
    }

    /// Marks the scope that the event ends and says what error it brings.
    fn route_scope_completion(&mut self, event: HostEvent) -> (e: Option<HierarchyError>)
        requires
            old(self)@.wf(),
            event matches HostEvent::ScopeEnded { index, .. } ==> index < old(self)@.ended.len(),
        ensures
            old(self)@.brings(event, e),
            final(self)@ == old(self)@.noted(event),
    {
        match event {
            HostEvent::ScopeEnded { index, result } => {
                let requested: bool = self.asked[index] && self.phase != HostPhase::Serving;
                self.ended.set(index, true);
                self.asked.set(index, true);
                match result {
                    Err(e) => Some(e),
                    Ok(_) => {
                        if requested {
                            None
                        } else {
                            let number: String = text::decimal(index as u64);
                            Some(
                                HierarchyError::InternalError {
                                    message: text::joined3(
                                        "hierarchical extension scope ",
                                        number.as_str(),
                                        " exited before host shutdown",
                                    ),
                                },
                            )
                        }
                    },
                }
            },
            HostEvent::TaskLost { scope, is_canceled, is_panic, error } => {
                let at: usize = match scope {
                    Some(i) => i,
                    None => 0,
                };
                if at < self.ended.len() {
                    self.ended.set(at, true);
                    self.asked.set(at, true);
                }
                Some(HierarchyError::JoinTaskError { is_canceled, is_panic, error })
            },
            _ => None,
        }
    }

    fn blame(&mut self, e: Option<HierarchyError>)
        ensures
            final(self)@ == old(self)@.blamed(e),
    {
        if self.first_error.is_none() {
            self.first_error = e;
        }
    }

    fn stop_engine(&mut self) -> (action: HostAction)
        requires
            old(self)@.wf(),
        ensures
            (final(self)@, action@) == old(self)@.stop_engine(),
    {
        if self.has_engine && !self.ended[0] {
            self.asked.set(0, true);
            self.phase = HostPhase::StoppingEngine;
            let mut scopes: Vec<usize> = Vec::new();
            scopes.push(0);
            assert(scopes@ =~= seq![0usize]);
            HostAction::Stop(scopes)
        } else {
            self.phase = HostPhase::Finished;
            HostAction::Finish
        }
    }

    fn stop_groups(&mut self) -> (action: HostAction)
        requires
            old(self)@.wf(),
        ensures
            (final(self)@, action@) == old(self)@.stop_groups(),
    {
        let from: usize = if self.has_engine {
            1
        } else {
            0
        };
        let ghost asked0 = self.asked@;
        let mut scopes: Vec<usize> = Vec::new();
        let mut i: usize = from;
        proof {
            assert(unasked(asked0.take(from as int), from as int) =~= Seq::<usize>::empty());
        }
        while i < self.asked.len()
            invariant
                from <= i <= asked0.len(),
                asked0.len() <= usize::MAX,
                self.asked@.len() == asked0.len(),
                self@ == (HostView { asked: self.asked@, ..old(self)@ }),
                forall|j: int| 0 <= j < from ==> self.asked@[j] == #[trigger] asked0[j],
                forall|j: int| from <= j < i ==> #[trigger] self.asked@[j],
                forall|j: int| i <= j < asked0.len() ==> self.asked@[j] == #[trigger] asked0[j],
                scopes@ == unasked(asked0.take(i as int), from as int),
            decreases asked0.len() - i,
        {
            proof {
                assert(asked0.take(i + 1).drop_last() =~= asked0.take(i as int));
                assert(asked0.take(i + 1).last() == asked0[i as int]);
            }
            if !self.asked[i] {
                scopes.push(i);
                self.asked.set(i, true);
            }
            i = i + 1;
        }
        proof {
            assert(asked0.take(i as int) =~= asked0);
            assert(self.asked@ =~= marked_from(asked0, from as int));
        }
        self.phase = HostPhase::StoppingGroups;
        if are_all_from(&self.ended, from) {
            self.stop_engine()
        } else {
            HostAction::Stop(scopes)
        }
    }

    /// Drives all scopes until cancellation or the first extension failure: takes what
    /// happened and says what comes next.
    ///
    /// A failure is reported before any surviving scope is stopped, and those scopes run until
    /// the host is asked to shut down. The groups stop first, the engine's scope last.
    pub fn run(&mut self, event: HostEvent) -> (action: HostAction)
        requires
            old(self)@.wf(),
            event matches HostEvent::ScopeEnded { index, .. } ==> index < old(self)@.ended.len(),
        ensures
            final(self)@.wf(),
            exists|e: Option<HierarchyError>| #[trigger]
                old(self)@.brings(event, e) && (final(self)@, action@) == old(self)@.next(event, e),
    {
        let ghost before = self@;
        let phase: HostPhase = self.phase;
        let from: usize = if self.has_engine {
            1
        } else {
            0
        };
        let (shutdown, no_tasks): (bool, bool) = match &event {
            HostEvent::ShutdownRequested => (true, false),
            HostEvent::NoTasks => (false, true),
            _ => (false, false),
        };
        let e: Option<HierarchyError> = self.route_scope_completion(event);
        let ghost e0 = e;
        self.blame(e);
        assert(before.brings(event, e0));
        match phase {
            HostPhase::Serving => {
                if shutdown {
                    self.stop_groups()
                } else if no_tasks {
                    HostAction::Wait
                } else {
                    self.phase = HostPhase::Failing;
                    HostAction::NotifyFailure
                }
            },
            HostPhase::Failing => {
                if shutdown {
                    self.stop_groups()
                } else {
                    HostAction::Wait
                }
            },
            HostPhase::StoppingGroups => {
                if no_tasks || are_all_from(&self.ended, from) {
                    self.stop_engine()
                } else {
                    HostAction::AwaitScope
                }
            },
            HostPhase::StoppingEngine => {
                if no_tasks || self.ended[0] {
                    self.phase = HostPhase::Finished;
                    HostAction::Finish
                } else {
                    HostAction::AwaitScope
                }
            },
            HostPhase::Finished => HostAction::Finish,
        }
    }

    /// How the host ended: with the first error, if there was one.
    pub fn into_result(self) -> (r: Result<(), HierarchyError>)
        ensures
            match r {
                Ok(_) => self@.first_error is None,
                Err(e) => self@.first_error == Some(e),
            },
    {
        match self.first_error {
            Some(e) => Err(e),
            None => Ok(()),
        }
    }
}

/// The engine's scope stops last: it is asked to stop only when every group's scope has ended,
/// or no task is left to wait for.
pub proof fn engine_stops_last(before: HostView, event: HostEvent, e: Option<HierarchyError>)
    requires
        before.wf(),
        before.has_engine,
        before.next(event, e).1 matches ActionView::Stop(scopes) && scopes.contains(0),
    ensures
        event is NoTasks || all_from(before.next(event, e).0.ended, 1),
{
    let from = before.groups_from();
    assert forall|i: int| 0 <= i < unasked(before.asked, from).len() implies (
    #[trigger] unasked(before.asked, from)[i]) >= from by {
        lemma_unasked(before.asked, from, i);
    }
}

proof fn lemma_unasked(asked: Seq<bool>, from: int, i: int)
    requires
        asked.len() <= usize::MAX,
        0 <= from,
        0 <= i < unasked(asked, from).len(),
    ensures
        from <= unasked(asked, from)[i] < asked.len(),
        !asked[unasked(asked, from)[i] as int],
    decreases asked.len(),
{
    let rest = asked.drop_last();
    if asked.len() > from && asked.len() > 0 {
        if i < unasked(rest, from).len() {
            lemma_unasked(rest, from, i);
            assert(rest[unasked(rest, from)[i] as int] == asked[unasked(rest, from)[i] as int]);
        }
    }
}

/// Until the host is asked to shut down, no scope is stopped, whatever fails.
pub proof fn survivors_run_until_shutdown(
    before: HostView,
    event: HostEvent,
    e: Option<HierarchyError>,
)
    requires
        before.wf(),
        before.phase is Serving || before.phase is Failing,
        !(event is ShutdownRequested),
        event matches HostEvent::ScopeEnded { index, .. } ==> index < before.ended.len(),
    ensures
        !(before.next(event, e).1 is Stop),
        !(before.next(event, e).1 is Finish),
        before.next(event, e).0.phase is Serving || before.next(event, e).0.phase is Failing,
        forall|i: int|
            0 <= i < before.asked.len() && before.ending(event) != Some(i) ==> before.next(
                event,
                e,
            ).0.asked[i] == #[trigger] before.asked[i],
{
}

/// The first failure is reported before anything is stopped.
pub proof fn failure_is_reported_first(
    before: HostView,
    event: HostEvent,
    e: Option<HierarchyError>,
)
    requires
        before.phase is Serving,
        event is ScopeEnded || event is TaskLost,
        before.brings(event, e),
    ensures
        before.next(event, e).1 is NotifyFailure,
        before.next(event, e).0.first_error is Some,
{
}

/// Later failures do not hide the first one.
pub proof fn first_error_stays(before: HostView, event: HostEvent, e: Option<HierarchyError>)
    requires
        before.first_error is Some,
    ensures
        before.next(event, e).0.first_error == before.first_error,
{
}

impl HostView {
    /// Where the host stops its engine, the groups have ended; where it is done, all have.
    pub open spec fn orderly(self) -> bool {
        &&& self.phase is StoppingEngine ==> all_from(self.ended, self.groups_from())
        &&& self.phase is Finished ==> all_from(self.ended, 0)
    }
}

/// A host ends only when every scope has ended, as long as there are tasks to wait for.
pub proof fn host_outlives_its_scopes(
    before: HostView,
    event: HostEvent,
    e: Option<HierarchyError>,
)
    requires
        before.wf(),
        before.orderly(),
        !(event is NoTasks),
        event matches HostEvent::ScopeEnded { index, .. } ==> index < before.ended.len(),
    ensures
        before.next(event, e).0.orderly(),
{
    let after = before.next(event, e).0;
    let now = before.noted(event).blamed(e);
    assert(all_from(before.ended, before.groups_from()) ==> all_from(
        now.ended,
        before.groups_from(),
    ));
    assert(all_from(before.ended, 0) ==> all_from(now.ended, 0));
}

proof fn lemma_unasked_all(asked: Seq<bool>, from: int, i: int)
    requires
        asked.len() <= usize::MAX,
        0 <= from <= i < asked.len(),
        !asked[i],
    ensures
        unasked(asked, from).contains(i as usize),
    decreases asked.len(),
{
    let rest = asked.drop_last();
    let n = unasked(rest, from).len() as int;
    if i == asked.len() - 1 {
        assert(unasked(asked, from)[n] == i as usize);
    } else {
        assert(rest[i] == asked[i]);
        lemma_unasked_all(rest, from, i);
        let k = unasked(rest, from).index_of(i as usize);
        assert(unasked(asked, from)[k] == i as usize);
    }
}

/// A shutdown request reaches every group: each group's scope is marked as asked, and if one has
/// not ended yet, those are told to stop that nobody asked before, and only those.
pub proof fn shutdown_reaches_every_group(before: HostView, e: Option<HierarchyError>, i: int)
    requires
        before.wf(),
        before.phase is Serving || before.phase is Failing,
        0 <= i < before.asked.len(),
        before.has_engine ==> i > 0,
    ensures
        ({
            let (after, action) = before.next(HostEvent::ShutdownRequested, e);
            &&& after.asked[i]
            &&& !before.ended[i] ==> {
                &&& after.phase is StoppingGroups
                &&& action is Stop
                &&& action->Stop_0.contains(i as usize) <==> !before.asked[i]
                &&& before.has_engine ==> !action->Stop_0.contains(0) && after.asked[0]
                    == before.asked[0]
            }
        }),
{
    let from = before.groups_from();
    let told = unasked(before.asked, from);
    assert(all_from(before.ended, from) ==> before.ended[i]);
    if !before.asked[i] {
        lemma_unasked_all(before.asked, from, i);
    }
    if told.contains(i as usize) {
        lemma_unasked(before.asked, from, told.index_of(i as usize));
    }
    if before.has_engine && told.contains(0) {
        lemma_unasked(before.asked, from, told.index_of(0));
    }
}

/// Once every group's scope has ended, the engine's scope is told to stop, unless it has ended
/// too; then the host is done.
pub proof fn engine_stops_once_the_groups_have_ended(
    before: HostView,
    event: HostEvent,
    e: Option<HierarchyError>,
)
    requires
        before.wf(),
        before.phase is StoppingGroups,
        !(event is NoTasks),
        event matches HostEvent::ScopeEnded { index, .. } ==> index < before.ended.len(),
    ensures
        ({
            let (after, action) = before.next(event, e);
            let groups_ended = forall|i: int|
                0 <= i < after.ended.len() && (before.has_engine ==> i > 0)
                    ==> #[trigger] after.ended[i];
            let engine_runs = before.has_engine && !after.ended[0];
            &&& groups_ended && engine_runs ==> after.phase is StoppingEngine && action
                == ActionView::Stop(seq![0usize]) && after.asked[0]
            &&& groups_ended && !engine_runs ==> after.phase is Finished && action is Finish
            &&& !groups_ended ==> after.phase is StoppingGroups && action is AwaitScope
        }),
{
    let now = before.noted(event).blamed(e);
    let from = before.groups_from();
    let after = before.next(event, e).0;
    assert(after.ended == now.ended);
    if all_from(now.ended, from) {
        assert forall|i: int|
            0 <= i < after.ended.len() && (before.has_engine ==> i > 0) implies #[trigger] after.ended[i] by {
            assert(now.ended[i]);
        }
    } else {
        let i = choose|i: int| from <= i < now.ended.len() && !#[trigger] now.ended[i];
        assert(!after.ended[i]);
    }
}

/// A scope counts as ended exactly if it was before, or the event says that it is: it has ended,
/// or its task was lost. A task that is not known counts as the first.
pub proof fn scopes_end_as_events_say(
    before: HostView,
    event: HostEvent,
    e: Option<HierarchyError>,
    i: int,
)
    requires
        before.wf(),
        0 <= i < before.ended.len(),
        event matches HostEvent::ScopeEnded { index, .. } ==> index < before.ended.len(),
    ensures
        before.next(event, e).0.ended.len() == before.ended.len(),
        before.next(event, e).0.ended[i] <==> before.ended[i] || match event {
            HostEvent::ScopeEnded { index, .. } => index == i,
            HostEvent::TaskLost { scope, .. } => scope == Some(i as usize) || (scope is None && i
                == 0),
            _ => false,
        },
{
}

/// A host whose engine's scope stops is done once that has ended, and not before.
pub proof fn host_waits_for_the_engine(
    before: HostView,
    event: HostEvent,
    e: Option<HierarchyError>,
)
    requires
        before.wf(),
        before.phase is StoppingEngine,
        !(event is NoTasks),
        event matches HostEvent::ScopeEnded { index, .. } ==> index < before.ended.len(),
    ensures
        before.next(event, e).0.phase is Finished <==> before.next(event, e).0.ended[0],
        before.next(event, e).1 is Finish <==> before.next(event, e).0.ended[0],
        !before.next(event, e).0.ended[0] ==> before.next(event, e).1 is AwaitScope,
{
}

/// The first failure is kept: the error of a scope that ends with one, or that of a lost task.
/// A scope that ends by itself before the host is asked to shut down is a failure too; one that
/// was asked to stop is none.
pub proof fn failures_are_kept(before: HostView, event: HostEvent, e: Option<HierarchyError>)
    requires
        before.wf(),
        before.first_error is None,
        before.brings(event, e),
        event matches HostEvent::ScopeEnded { index, .. } ==> index < before.ended.len(),
    ensures
        ({
            let kept = before.next(event, e).0.first_error;
            match event {
                HostEvent::ScopeEnded { index, result: Err(own) } => kept == Some(own),
                HostEvent::ScopeEnded { index, result: Ok(_) } => {
                    &&& before.phase is Serving || !before.asked[index as int] ==> kept is Some
                    &&& !(before.phase is Serving) && before.asked[index as int] ==> kept is None
                },
                HostEvent::TaskLost { scope, is_canceled, is_panic, error } => kept == Some(
                    HierarchyError::JoinTaskError { is_canceled, is_panic, error },
                ),
                _ => kept is None,
            }
        }),
{
}

/// The host went through those states with those events.
pub open spec fn is_host_run(states: Seq<HostView>, events: Seq<HostEvent>) -> bool {
    &&& states.len() == events.len() + 1
    &&& states[0].wf()
    &&& states[0].phase is Serving
    &&& forall|n: int| 0 <= n < events.len() ==> #[trigger] leads_host(states, events, n)
}

/// The event at position `n` leads from one state to the next.
pub open spec fn leads_host(states: Seq<HostView>, events: Seq<HostEvent>, n: int) -> bool {
    &&& events[n] matches HostEvent::ScopeEnded { index, .. } ==> index < states[n].ended.len()
    &&& exists|e: Option<HierarchyError>| #[trigger]
        states[n].brings(events[n], e) && states[n + 1] == states[n].next(events[n], e).0
}

/// A host that is done leaves no scope behind: as long as there were tasks to wait for, every
/// scope has ended.
pub proof fn finished_host_left_no_scope(
    states: Seq<HostView>,
    events: Seq<HostEvent>,
    n: int,
    i: int,
)
    requires
        is_host_run(states, events),
        forall|k: int| 0 <= k < events.len() ==> !((#[trigger] events[k]) is NoTasks),
        0 <= n <= events.len(),
        states[n].phase is Finished,
        0 <= i < states[n].ended.len(),
    ensures
        states[n].ended[i],
{
    lemma_host_run(states, events, n);
    assert(all_from(states[n].ended, 0));
}

proof fn lemma_host_run(states: Seq<HostView>, events: Seq<HostEvent>, n: int)
    requires
        is_host_run(states, events),
        forall|k: int| 0 <= k < events.len() ==> !((#[trigger] events[k]) is NoTasks),
        0 <= n <= events.len(),
    ensures
        states[n].wf(),
        states[n].orderly(),
    decreases n,
{
    if n > 0 {
        lemma_host_run(states, events, n - 1);
        assert(leads_host(states, events, n - 1));
        let before = states[n - 1];
        let event = events[n - 1];
        let e = choose|e: Option<HierarchyError>| #[trigger]
            before.brings(event, e) && states[n - 1 + 1] == before.next(event, e).0;
        assert(!(events[n - 1] is NoTasks));
        host_outlives_its_scopes(before, event, e);
    }
}

/// What happens to the extensions of one running scope.
#[derive(Debug)]
pub enum ScopeEvent {
    /// The scope is asked to stop.
    ShutdownRequested,
    /// It is time to look at the extensions.
    MonitorTick,
    /// An extension ended with an error.
    ExtensionFailed(HierarchyError),
    /// The task of an extension was canceled or panicked.
    TaskLost { is_canceled: bool, is_panic: bool, error: String },
}

/// What a running scope has to do next.
#[derive(Debug)]
pub enum ScopeAction {
    /// Report the metrics of the extensions and of their channels, and go on.
    ReportMetrics,
    /// Stop all extensions; the scope ends with that result.
    Stop(Result<(), HierarchyError>),
}

/// Runs the extensions of one scope: takes what happened and says what comes next.
pub fn run_scope(event: ScopeEvent) -> (action: ScopeAction)
    ensures
        match event {
            ScopeEvent::ShutdownRequested => action == ScopeAction::Stop(Ok(())),
            ScopeEvent::MonitorTick => action is ReportMetrics,
            ScopeEvent::ExtensionFailed(e) => action == ScopeAction::Stop(Err(e)),
            ScopeEvent::TaskLost { is_canceled, is_panic, error } => action == ScopeAction::Stop(
                Err(HierarchyError::JoinTaskError { is_canceled, is_panic, error }),
            ),
        },
{
    match event {
        ScopeEvent::ShutdownRequested => ScopeAction::Stop(Ok(())),
        ScopeEvent::MonitorTick => ScopeAction::ReportMetrics,
        ScopeEvent::ExtensionFailed(e) => ScopeAction::Stop(Err(e)),
        ScopeEvent::TaskLost { is_canceled, is_panic, error } => ScopeAction::Stop(
            Err(HierarchyError::JoinTaskError { is_canceled, is_panic, error }),
        ),
    }
}

} // verus!
