//! The loop that drives a runtime.
//!
//! A round polls the reactors first, so that a message that arrives wakes its
//! task in the same round; then the polling tasks that are queued at that
//! moment, as one batch; then one regular task. The loop itself only decides:
//! each `step` names the next action, the caller performs it and reports back.
//!
//! The status of a reactor is read just before its own poll, so that one which
//! an earlier poll of the round has started or stopped is treated as such. A
//! round first looks for a reactor that requires exclusive access: if there is
//! one, it is the only reactor that is polled.

use crate::runtime::executor::spsc::ChannelView;
use crate::runtime::executor::{Runtime, RuntimeView};
use crate::runtime::reactor::ReactorStatus;
use crate::runtime::task::Task;
use crate::text;
use vstd::prelude::*;

verus! {

/// Rounds without progress after which a runtime counts as stuck, unless
/// `PLUVIO_MAX_STUCK_ITERATIONS` says otherwise.
pub const DEFAULT_MAX_STUCK: u64 = 1000000;

/// Rounds without progress between two pauses.
pub const STUCK_PAUSE_EVERY: u64 = 10000;

/// The length at which the pause stops doubling, in milliseconds.
pub const MAX_PAUSE_MS: u64 = 1024;

/// Regular tasks that one call of `progress` runs at most.
pub const MAX_TASKS_PER_CALL: usize = 100;

/// What ends the loop.
#[derive(Debug, Clone, Copy, PartialEq, Eq, Structural)]
pub enum LoopMode {
    /// Run until the task pool is empty.
    RunQueue,
    /// Run until the task with this id has completed.
    BlockOn { task_id: usize },
    /// Run one round, with up to `MAX_TASKS_PER_CALL` regular tasks.
    Progress,
}

/// Where a round stands.
#[derive(Debug, Clone, Copy, PartialEq, Eq, Structural)]
pub enum Phase {
    /// Decide whether another round is due.
    Check,
    /// Look for a reactor that requires exclusive access, from `next` on.
    Search { next: usize },
    /// Poll the running reactors, from `next` on.
    Reactors { next: usize },
    /// Poll reactor `index`, and none after it if it is `alone`.
    Due { index: usize, alone: bool },
    /// Take the batch off the polling queue.
    Collect,
    /// Poll the tasks of the batch from `next` on.
    Polling { next: usize },
    /// Poll regular tasks; `done` of this round have been.
    Regular { done: usize },
    /// Decide whether the round made progress.
    Judge,
    /// The loop is over, stuck or not.
    Over { stuck: bool },
}

/// What the caller does next.
#[derive(Debug, Clone, Copy, PartialEq, Eq, Structural)]
pub enum LoopAction {
    /// Nothing: call `step` again.
    Continue,
    /// Read the status of reactor `index` and hand it to `status_read`.
    ReadStatus { index: usize },
    /// Poll reactor `index` and report it by `reactor_polled`.
    PollReactor { index: usize },
    /// Poll task `id`; if it is ready, report it by `task_completed`. A task
    /// that was woken twice may be gone by now: `Runtime::poll_task` then gives
    /// `None` and changes nothing, and the loop goes on.
    PollTask { id: usize },
    /// Sleep.
    Sleep { millis: u64 },
    /// Yield the processor.
    Yield,
    /// The loop has reached its end.
    Finished,
    /// No round has made progress for too long.
    Stuck,
}

/// The state of a loop.
#[verifier::ext_equal]
pub struct LoopView {
    pub mode: LoopMode,
    pub phase: Phase,
    /// The polling tasks of this round.
    pub batch: Seq<usize>,
    /// Whether this round has made progress.
    pub made_progress: bool,
    /// Rounds without progress in a row.
    pub stuck: int,
    /// How many of those are tolerated.
    pub max_stuck: int,
    /// The length of the last pause.
    pub pause_ms: int,
}

/// A loop that drives a runtime.
#[derive(Debug)]
pub struct EventLoop {
    mode: LoopMode,
    phase: Phase,
    batch: Vec<usize>,
    made_progress: bool,
    stuck: u64,
    max_stuck: u64,
    pause_ms: u64,
}

/// The pause that follows one of this length.
pub open spec fn longer_pause(pause_ms: int) -> int {
    if pause_ms < MAX_PAUSE_MS {
        2 * pause_ms
    } else {
        pause_ms
    }
}

impl LoopView {
    /// Whether the loop has reached its end.
    pub open spec fn reached_end(self, rt: RuntimeView) -> bool {
        match self.mode {
            LoopMode::RunQueue => rt.tasks == Map::<usize, Option<Task>>::empty(),
            LoopMode::BlockOn { task_id } => !rt.tasks.contains_key(task_id),
            LoopMode::Progress => false,
        }
    }

    /// How many regular tasks a round runs at most.
    pub open spec fn regular_limit(self) -> int {
        match self.mode {
            LoopMode::Progress => MAX_TASKS_PER_CALL as int,
            _ => 1,
        }
    }

    /// The loop in another phase.
    pub open spec fn at(self, phase: Phase) -> LoopView {
        LoopView { phase, ..self }
    }

    /// One step: the loop and the runtime after it, and what the caller does.
    pub open spec fn step(self, rt: RuntimeView) -> (LoopView, RuntimeView, LoopAction) {
        match self.phase {
            Phase::Check => if self.reached_end(rt) {
                (self.at(Phase::Over { stuck: false }), rt, LoopAction::Finished)
            } else {
                (
                    LoopView {
                        made_progress: false,
                        phase: Phase::Search { next: 0 },
                        ..self
                    },
                    rt,
                    LoopAction::Continue,
                )
            },
            Phase::Search { next } => if next >= rt.reactors.len() {
                (self.at(Phase::Reactors { next: 0 }), rt, LoopAction::Continue)
            } else if rt.reactors[next as int].enable {
                (self, rt, LoopAction::ReadStatus { index: next })
            } else {
                (self.at(Phase::Search { next: (next + 1) as usize }), rt, LoopAction::Continue)
            },
            Phase::Reactors { next } => if next >= rt.reactors.len() {
                (self.at(Phase::Collect), rt, LoopAction::Continue)
            } else if rt.reactors[next as int].enable {
                (self, rt, LoopAction::ReadStatus { index: next })
            } else {
                (self.at(Phase::Reactors { next: (next + 1) as usize }), rt, LoopAction::Continue)
            },
            Phase::Due { index, alone } => (
                self.at(
                    if alone {
                        Phase::Collect
                    } else {
                        Phase::Reactors { next: (index + 1) as usize }
                    },
                ),
                rt,
                LoopAction::PollReactor { index },
            ),
            Phase::Collect => (
                LoopView {
                    batch: rt.polling.queue,
                    phase: Phase::Polling { next: 0 },
                    ..self
                },
                RuntimeView {
                    polling: ChannelView { queue: Seq::empty(), ..rt.polling },
                    ..rt
                },
                LoopAction::Continue,
            ),
            Phase::Polling { next } => if next < self.batch.len() {
                (
                    self.at(Phase::Polling { next: (next + 1) as usize }),
                    rt,
                    LoopAction::PollTask { id: self.batch[next as int] },
                )
            } else {
                (self.at(Phase::Regular { done: 0 }), rt, LoopAction::Continue)
            },
            Phase::Regular { done } => if done < self.regular_limit()
                && rt.regular.queue.len() > 0 {
                (
                    self.at(Phase::Regular { done: (done + 1) as usize }),
                    RuntimeView { regular: rt.regular.after_recv(), ..rt },
                    LoopAction::PollTask { id: rt.regular.queue[0] },
                )
            } else if self.mode == LoopMode::Progress {
                (self.at(Phase::Over { stuck: false }), rt, LoopAction::Finished)
            } else {
                (self.at(Phase::Judge), rt, LoopAction::Continue)
            },
            Phase::Judge => {
                let (lv, action) = self.judged();
                (lv, rt, action)
            },
            Phase::Over { stuck } => (
                self,
                rt,
                if stuck {
                    LoopAction::Stuck
                } else {
                    LoopAction::Finished
                },
            ),
        }
    }

    /// The reactor that the loop is at has this status: while it looks for one
    /// that requires exclusive access, only such a one is due; at its turn, a
    /// running one is as well.
    pub open spec fn after_status(self, status: ReactorStatus) -> LoopView {
        match self.phase {
            Phase::Search { next } => match status {
                ReactorStatus::Blocking => self.at(Phase::Due { index: next, alone: true }),
                _ => self.at(Phase::Search { next: (next + 1) as usize }),
            },
            Phase::Reactors { next } => match status {
                ReactorStatus::Running => self.at(Phase::Due { index: next, alone: false }),
                ReactorStatus::Blocking => self.at(Phase::Due { index: next, alone: true }),
                ReactorStatus::Stopped => self.at(Phase::Reactors { next: (next + 1) as usize }),
            },
            _ => self,
        }
    }

    /// The end of a round: progress starts the count anew; a round without
    /// progress is counted, and the loop is stuck once too many are.
    pub open spec fn judged(self) -> (LoopView, LoopAction) {
        if self.made_progress {
            (
                LoopView { stuck: 0, pause_ms: 1, phase: Phase::Check, ..self },
                LoopAction::Continue,
            )
        } else if self.stuck + 1 > self.max_stuck {
            (self.at(Phase::Over { stuck: true }), LoopAction::Stuck)
        } else {
            let counted = LoopView { stuck: self.stuck + 1, phase: Phase::Check, ..self };
            match self.mode {
                LoopMode::BlockOn { .. } => (counted, LoopAction::Yield),
                _ => if counted.stuck % STUCK_PAUSE_EVERY as int == 0 {
                    let pause = longer_pause(self.pause_ms);
                    (
                        LoopView { pause_ms: pause, ..counted },
                        LoopAction::Sleep { millis: pause as u64 },
                    )
                } else {
                    (counted, LoopAction::Continue)
                },
            }
        }
    }
}

impl View for EventLoop {
    type V = LoopView;

    closed spec fn view(&self) -> LoopView {
        LoopView {
            mode: self.mode,
            phase: self.phase,
            batch: self.batch@,
            made_progress: self.made_progress,
            stuck: self.stuck as int,
            max_stuck: self.max_stuck as int,
            pause_ms: self.pause_ms as int,
        }
    }
}

/// How many rounds without progress are tolerated: the variable
/// `PLUVIO_MAX_STUCK_ITERATIONS` if it is a number, else the default.
pub fn max_stuck_iterations(var: Option<&str>) -> (n: u64)
    ensures
        n == match var {
            Some(s) => match text::unsigned_value(s@) {
                Some(v) => if v <= u64::MAX {
                    v as u64
                } else {
                    DEFAULT_MAX_STUCK
                },
                None => DEFAULT_MAX_STUCK,
            },
            None => DEFAULT_MAX_STUCK,
        },
        var is None || text::unsigned_value(var->0@) is None ==> n == 1000000,
{
    match var {
        Some(s) => match text::parse_unsigned(s, u64::MAX) {
            Some(v) => v,
            None => DEFAULT_MAX_STUCK,
        },
        None => DEFAULT_MAX_STUCK,
    }
}

impl EventLoop {
    /// The counters are in range.
    pub closed spec fn wf(&self) -> bool {
        &&& self.stuck <= self.max_stuck
        &&& 1 <= self.pause_ms <= MAX_PAUSE_MS
        &&& vstd::arithmetic::power2::is_pow2(self.pause_ms as int)
        &&& self.phase matches Phase::Due { index, .. } ==> index < usize::MAX
    }

    /// A loop before its first round; `progress` has no check to pass first.
    fn start(mode: LoopMode, phase: Phase, max_stuck: u64) -> (l: EventLoop)
        requires
            !(phase is Due),
        ensures
            l.wf(),
            l@ == (LoopView {
                mode,
                phase,
                batch: Seq::empty(),
                made_progress: false,
                stuck: 0,
                max_stuck: max_stuck as int,
                pause_ms: 1,
            }),
    {
        let l = EventLoop {
            mode,
            phase,
            batch: Vec::new(),
            made_progress: false,
            stuck: 0,
            max_stuck,
            pause_ms: 1,
        };
        assert(l@.batch =~= Seq::empty());
        proof {
            reveal(vstd::arithmetic::power2::is_pow2);
        }
        l
    }

    /// A loop that runs tasks until the pool is empty.
    pub fn run_queue(max_stuck: u64) -> (l: EventLoop)
        ensures
            l.wf(),
            l@ == (LoopView {
                mode: LoopMode::RunQueue,
                phase: Phase::Check,
                batch: Seq::empty(),
                made_progress: false,
                stuck: 0,
                max_stuck: max_stuck as int,
                pause_ms: 1,
            }),
    {
        Self::start(LoopMode::RunQueue, Phase::Check, max_stuck)
    }

    /// A loop that runs until task `task_id` has completed; other tasks run
    /// along.
    pub fn block_on(task_id: usize, max_stuck: u64) -> (l: EventLoop)
        ensures
            l.wf(),
            l@ == (LoopView {
                mode: LoopMode::BlockOn { task_id },
                phase: Phase::Check,
                batch: Seq::empty(),
                made_progress: false,
                stuck: 0,
                max_stuck: max_stuck as int,
                pause_ms: 1,
            }),
    {
        Self::start(LoopMode::BlockOn { task_id }, Phase::Check, max_stuck)
    }

    /// A loop of one round.
    pub fn progress() -> (l: EventLoop)
        ensures
            l.wf(),
            l@ == (LoopView {
                mode: LoopMode::Progress,
                phase: Phase::Search { next: 0 },
                batch: Seq::empty(),
                made_progress: false,
                stuck: 0,
                max_stuck: 0,
                pause_ms: 1,
            }),
    {
        Self::start(LoopMode::Progress, Phase::Search { next: 0 }, 0)
    }

    /// Decide on the next action.
    pub fn step(&mut self, rt: &mut Runtime) -> (action: LoopAction)
        requires
            old(self).wf(),
            old(rt).wf(),
        ensures
            final(self).wf(),
            final(rt).wf(),
            (final(self)@, final(rt)@, action) == old(self)@.step(old(rt)@),
            action matches LoopAction::ReadStatus { index } ==> index < usize::MAX,
            action == LoopAction::Finished && !(old(self)@.phase is Over) ==> match old(
                self,
            )@.mode {
                LoopMode::BlockOn { task_id } => !final(rt)@.tasks.dom().contains(task_id),
                LoopMode::RunQueue => forall|id: usize|
                    !#[trigger] final(rt)@.tasks.dom().contains(id),
                LoopMode::Progress => true,
            },
    {
        match self.phase {
            Phase::Check => {
                let over: bool = match self.mode {
                    LoopMode::RunQueue => rt.task_count() == 0,
                    LoopMode::BlockOn { task_id } => !rt.contains_task(task_id),
                    LoopMode::Progress => false,
                };
                if over {
                    self.phase = Phase::Over { stuck: false };
                    LoopAction::Finished
                } else {
                    self.made_progress = false;
                    self.phase = Phase::Search { next: 0 };
                    LoopAction::Continue
                }
            },
            Phase::Search { next } => {
                if next >= rt.reactor_count() {
                    self.phase = Phase::Reactors { next: 0 };
                    LoopAction::Continue
                } else if rt.reactor_enabled(next) {
                    LoopAction::ReadStatus { index: next }
                } else {
                    self.phase = Phase::Search { next: next + 1 };
                    LoopAction::Continue
                }
            },
            Phase::Reactors { next } => {
                if next >= rt.reactor_count() {
                    self.phase = Phase::Collect;
                    LoopAction::Continue
                } else if rt.reactor_enabled(next) {
                    LoopAction::ReadStatus { index: next }
                } else {
                    self.phase = Phase::Reactors { next: next + 1 };
                    LoopAction::Continue
                }
            },
            Phase::Due { index, alone } => {
                self.phase = if alone {
                    Phase::Collect
                } else {
                    Phase::Reactors { next: index + 1 }
                };
                LoopAction::PollReactor { index }
            },
            Phase::Collect => {
                self.batch = rt.take_polling();
                self.phase = Phase::Polling { next: 0 };
                LoopAction::Continue
            },
            Phase::Polling { next } => {
                if next < self.batch.len() {
                    self.phase = Phase::Polling { next: next + 1 };
                    LoopAction::PollTask { id: self.batch[next] }
                } else {
                    self.phase = Phase::Regular { done: 0 };
                    LoopAction::Continue
                }
            },
            Phase::Regular { done } => {
                let limit: usize = match self.mode {
                    LoopMode::Progress => MAX_TASKS_PER_CALL,
                    _ => 1,
                };
                if done < limit {
                    match rt.take_regular() {
                        Some(id) => {
                            self.phase = Phase::Regular { done: done + 1 };
                            return LoopAction::PollTask { id };
                        },
                        None => {},
                    }
                }
                match self.mode {
                    LoopMode::Progress => {
                        self.phase = Phase::Over { stuck: false };
                        LoopAction::Finished
                    },
                    _ => {
                        self.phase = Phase::Judge;
                        LoopAction::Continue
                    },
                }
            },
            Phase::Judge => self.judge(),
            Phase::Over { stuck } => if stuck {
                LoopAction::Stuck
            } else {
                LoopAction::Finished
            },
        }
    }

    /// End a round.
    fn judge(&mut self) -> (action: LoopAction)
        requires
            old(self).wf(),
        ensures
            final(self).wf(),
            (final(self)@, action) == old(self)@.judged(),
    {
        proof {
            pause_is_bounded(self@);
            reveal(vstd::arithmetic::power2::is_pow2);
        }
        if self.made_progress {
            self.stuck = 0;
            self.pause_ms = 1;
            self.phase = Phase::Check;
            return LoopAction::Continue;
        }
        if self.stuck >= self.max_stuck {
            self.phase = Phase::Over { stuck: true };
            return LoopAction::Stuck;
        }
        self.stuck = self.stuck + 1;
        self.phase = Phase::Check;
        match self.mode {
            LoopMode::BlockOn { .. } => LoopAction::Yield,
            _ => if self.stuck % STUCK_PAUSE_EVERY == 0 {
                if self.pause_ms < MAX_PAUSE_MS {
                    self.pause_ms = self.pause_ms * 2;
                }
                LoopAction::Sleep { millis: self.pause_ms }
            } else {
                LoopAction::Continue
            },
        }
    }

    /// The reactor whose status was asked for has this one.
    pub fn status_read(&mut self, status: ReactorStatus)
        requires
            old(self).wf(),
            match old(self)@.phase {
                Phase::Search { next } => next < usize::MAX,
                Phase::Reactors { next } => next < usize::MAX,
                _ => false,
            },
        ensures
            final(self).wf(),
            final(self)@ == old(self)@.after_status(status),
    {
        match self.phase {
            Phase::Search { next } => {
                self.phase = match status {
                    ReactorStatus::Blocking => Phase::Due { index: next, alone: true },
                    _ => Phase::Search { next: next + 1 },
                };
            },
            Phase::Reactors { next } => {
                self.phase = match status {
                    ReactorStatus::Running => Phase::Due { index: next, alone: false },
                    ReactorStatus::Blocking => Phase::Due { index: next, alone: true },
                    ReactorStatus::Stopped => Phase::Reactors { next: next + 1 },
                };
            },
            _ => {},
        }
    }

    /// Reactor `index` has been polled, which took `elapsed_ns`.
    pub fn reactor_polled(&mut self, rt: &mut Runtime, index: usize, elapsed_ns: u64)
        requires
            old(self).wf(),
            old(rt).wf(),
            old(rt)@.counts_poll(index as int, elapsed_ns),
        ensures
            final(self).wf(),
            final(rt).wf(),
            final(self)@ == (LoopView { made_progress: true, ..old(self)@ }),
            final(rt)@ == old(rt)@.after_reactor_poll(index as int, elapsed_ns),
    {
        rt.reactor_polled(index, elapsed_ns);
        self.made_progress = true;
    }

    /// Task `id` was polled and is ready: it is recorded and leaves the pool.
    pub fn task_completed(&mut self, rt: &mut Runtime, id: usize, retain: bool)
        requires
            old(self).wf(),
            old(rt).wf(),
            old(rt)@.tasks.contains_key(id),
        ensures
            final(self).wf(),
            final(rt).wf(),
            final(self)@ == (LoopView { made_progress: true, ..old(self)@ }),
            final(rt)@ == old(rt)@.completed(id, retain),
    {
        rt.complete_task(id, retain);
        self.made_progress = true;
    }
}

/// A loop ends only for its reason: `run_queue` with an empty pool, `block_on`
/// with its task gone; otherwise it has been stuck.
pub proof fn loop_ends_for_its_reason(l: LoopView, rt: RuntimeView)
    requires
        l.mode != LoopMode::Progress,
        !(l.phase is Over),
    ensures
        l.step(rt).2 == LoopAction::Finished <==> l.phase == Phase::Check && l.reached_end(rt),
        l.step(rt).2 == LoopAction::Stuck <==> l.phase == Phase::Judge && !l.made_progress
            && l.stuck + 1 > l.max_stuck,
{
}

/// A loop that ends well has done its work, and one that has is ended: at its
/// check `run_queue` goes on exactly as long as some task is in the pool, and
/// `block_on` exactly as long as its own task is, whatever waits in the queues.
/// Nowhere else do these loops end well.
pub proof fn finished_loop_has_done_its_work(l: LoopView, rt: RuntimeView)
    requires
        l.mode != LoopMode::Progress,
        !(l.phase is Over),
    ensures
        ({
            let (after, rt_after, action) = l.step(rt);
            let ended = action == LoopAction::Finished;
            &&& ended == (after.phase == (Phase::Over { stuck: false }))
            &&& ended ==> l.phase == Phase::Check && rt_after.tasks == rt.tasks
            &&& l.phase == Phase::Check ==> match l.mode {
                LoopMode::BlockOn { task_id } => ended == !rt.tasks.dom().contains(task_id),
                _ => ended == (forall|id: usize| !#[trigger] rt.tasks.dom().contains(id)),
            }
            &&& l.phase == Phase::Check && !ended ==> after.phase == (Phase::Search { next: 0 })
                && !after.made_progress
        }),
{
    let none = Map::<usize, Option<Task>>::empty();
    if forall|id: usize| !#[trigger] rt.tasks.dom().contains(id) {
        assert(rt.tasks =~= none);
    }
}

/// A call of `progress` ends once a hundred regular tasks have been polled, or
/// none is left, and not before.
pub proof fn progress_stops_at_its_limit(l: LoopView, rt: RuntimeView, done: usize)
    requires
        l.mode == LoopMode::Progress,
        l.phase == (Phase::Regular { done }),
    ensures
        ({
            let (after, rt_after, action) = l.step(rt);
            if done < 100 && rt.regular.queue.len() > 0 {
                &&& action == (LoopAction::PollTask { id: rt.regular.queue.first() })
                &&& after.phase == (Phase::Regular { done: (done + 1) as usize })
                &&& rt_after.regular.queue == rt.regular.queue.drop_first()
            } else {
                &&& action == LoopAction::Finished
                &&& after.phase == (Phase::Over { stuck: false })
                &&& rt_after == rt
            }
        }),
{
    assert(rt.regular.queue.len() > 0 ==> rt.regular.queue.skip(1)
        =~= rt.regular.queue.drop_first());
}

/// A round of `run_queue` or `block_on` runs one regular task, the one that has
/// waited longest, if any waits, and is then judged.
pub proof fn one_regular_task_a_round(l: LoopView, rt: RuntimeView, done: usize)
    requires
        l.mode != LoopMode::Progress,
        l.phase == (Phase::Regular { done }),
    ensures
        ({
            let (after, rt_after, action) = l.step(rt);
            if done == 0 && rt.regular.queue.len() > 0 {
                &&& action == (LoopAction::PollTask { id: rt.regular.queue.first() })
                &&& after.phase == (Phase::Regular { done: 1 })
                &&& rt_after.regular.queue == rt.regular.queue.drop_first()
            } else {
                &&& action == LoopAction::Continue
                &&& after.phase == Phase::Judge
                &&& rt_after == rt
            }
        }),
{
    assert(rt.regular.queue.len() > 0 ==> rt.regular.queue.skip(1)
        =~= rt.regular.queue.drop_first());
}

/// The reactors have their turns in order of their index, twice: first each
/// enabled one is asked whether it requires exclusive access, then each is asked
/// whether it runs; those that are not enabled are passed over.
pub proof fn reactors_are_asked_in_turn(l: LoopView, rt: RuntimeView, next: usize)
    requires
        l.phase == (Phase::Search { next }) || l.phase == (Phase::Reactors { next }),
        rt.reactors.len() <= usize::MAX,
    ensures
        ({
            let (after, rt_after, action) = l.step(rt);
            &&& next < rt.reactors.len() && rt.reactors[next as int].enable ==> {
                action == (LoopAction::ReadStatus { index: next }) && after.phase == l.phase
            }
            &&& next < rt.reactors.len() && !rt.reactors[next as int].enable ==> {
                &&& action == LoopAction::Continue
                &&& l.phase is Search ==> after.phase == (Phase::Search {
                    next: (next + 1) as usize,
                })
                &&& l.phase is Reactors ==> after.phase == (Phase::Reactors {
                    next: (next + 1) as usize,
                })
            }
            &&& next >= rt.reactors.len() ==> {
                &&& action == LoopAction::Continue
                &&& l.phase is Search ==> after.phase == (Phase::Reactors { next: 0 })
                &&& l.phase is Reactors ==> after.phase == Phase::Collect
            }
        }),
{
}

/// What a status means: one that requires exclusive access is polled alone,
/// whenever it says so; one that runs is polled at its turn among the others; one
/// that has stopped is not polled.
pub proof fn status_decides_the_poll(l: LoopView, status: ReactorStatus, next: usize)
    requires
        next < usize::MAX,
        l.phase == (Phase::Search { next }) || l.phase == (Phase::Reactors { next }),
    ensures
        ({
            let after = l.after_status(status);
            &&& status is Blocking ==> after.phase == (Phase::Due { index: next, alone: true })
            &&& status is Running && l.phase is Reactors ==> after.phase == (Phase::Due {
                index: next,
                alone: false,
            })
            &&& status is Stopped || (status is Running && l.phase is Search) ==> {
                &&& l.phase is Search ==> after.phase == (Phase::Search {
                    next: (next + 1) as usize,
                })
                &&& l.phase is Reactors ==> after.phase == (Phase::Reactors {
                    next: (next + 1) as usize,
                })
            }
            &&& after.mode == l.mode
            &&& after.batch == l.batch
            &&& after.made_progress == l.made_progress
            &&& after.stuck == l.stuck
            &&& after.max_stuck == l.max_stuck
            &&& after.pause_ms == l.pause_ms
        }),
{
}

/// A reactor that is due is polled; the next one has its turn after it, unless
/// it is polled alone: the round then goes on to the tasks.
pub proof fn due_reactor_is_polled(l: LoopView, rt: RuntimeView, index: usize, alone: bool)
    requires
        index < usize::MAX,
        l.phase == (Phase::Due { index, alone }),
    ensures
        l.step(rt).2 == (LoopAction::PollReactor { index }),
        alone ==> l.step(rt).0.phase == Phase::Collect,
        !alone ==> l.step(rt).0.phase == (Phase::Reactors { next: (index + 1) as usize }),
{
}

/// A loop that is over stays so, and says each time how it ended. The counters
/// change only where a round is judged, and the round's own progress is
/// forgotten only where a round begins.
pub proof fn counters_change_between_rounds(l: LoopView, rt: RuntimeView)
    ensures
        ({
            let (after, rt_after, action) = l.step(rt);
            &&& l.phase matches Phase::Over { stuck } ==> {
                &&& after == l
                &&& action == if stuck {
                    LoopAction::Stuck
                } else {
                    LoopAction::Finished
                }
            }
            &&& l.phase != Phase::Judge ==> after.stuck == l.stuck && after.pause_ms == l.pause_ms
            &&& l.phase != Phase::Check ==> after.made_progress == l.made_progress
        }),
{
}

/// A step loses no id and invents none: what it takes off a queue is polled, or
/// stands in the batch, which is polled entry by entry; statistics and reactors
/// are left alone.
pub proof fn step_loses_no_id(l: LoopView, rt: RuntimeView)
    ensures
        ({
            let (after, rt_after, action) = l.step(rt);
            &&& rt_after.tasks == rt.tasks
            &&& rt_after.reactors == rt.reactors
            &&& rt_after.finished == rt.finished
            &&& rt_after.polling_time == rt.polling_time
            &&& after.mode == l.mode
            &&& after.max_stuck == l.max_stuck
            &&& match l.phase {
                Phase::Collect => {
                    &&& after.batch == rt.polling.queue
                    &&& rt_after.polling.queue.len() == 0
                    &&& rt_after.regular == rt.regular
                    &&& after.phase == (Phase::Polling { next: 0 })
                    &&& action == LoopAction::Continue
                },
                Phase::Polling { next } => {
                    &&& rt_after == rt
                    &&& after.batch == l.batch
                    &&& if next < l.batch.len() {
                        action == (LoopAction::PollTask { id: l.batch[next as int] })
                    } else {
                        action == LoopAction::Continue && after.phase == (Phase::Regular {
                            done: 0,
                        })
                    }
                },
                Phase::Regular { .. } => {
                    &&& rt_after.polling == rt.polling
                    &&& match action {
                        LoopAction::PollTask { id } => rt.regular.queue == seq![id]
                            + rt_after.regular.queue,
                        _ => rt_after == rt,
                    }
                },
                _ => rt_after == rt && !(action is PollTask) && after.batch == l.batch,
            }
        }),
{
    if rt.regular.queue.len() > 0 {
        assert(rt.regular.queue =~= seq![rt.regular.queue[0]] + rt.regular.queue.skip(1));
    }
}

/// The end of a round counts: with progress the count of idle rounds and the
/// pause start anew; without, one more idle round is counted, until more than
/// `max_stuck` in a row end the loop as stuck. A stuck `block_on` yields; the
/// others pause after every ten thousand idle rounds, twice as long as the time
/// before, up to 1024 milliseconds.
pub proof fn idle_rounds_are_counted(l: LoopView, rt: RuntimeView)
    requires
        l.phase == Phase::Judge,
        0 <= l.stuck <= l.max_stuck,
    ensures
        ({
            let (after, rt_after, action) = l.step(rt);
            &&& rt_after == rt
            &&& l.made_progress ==> after.stuck == 0 && after.pause_ms == 1 && after.phase
                == Phase::Check && action == LoopAction::Continue
            &&& !l.made_progress && l.stuck == l.max_stuck ==> action == LoopAction::Stuck
                && after.phase == (Phase::Over { stuck: true })
            &&& !l.made_progress && l.stuck < l.max_stuck ==> {
                let pauses = !(l.mode is BlockOn) && (l.stuck + 1) % 10000 == 0;
                &&& after.stuck == l.stuck + 1
                &&& after.phase == Phase::Check
                &&& (action == LoopAction::Yield) == (l.mode is BlockOn)
                &&& (action is Sleep) == pauses
                &&& after.pause_ms == if pauses && l.pause_ms < 1024 {
                    2 * l.pause_ms
                } else {
                    l.pause_ms
                }
                &&& pauses && 0 <= l.pause_ms <= 1024 ==> action->millis == after.pause_ms
            }
        }),
{
}

/// Deciding never touches a task: a step leaves the pool as it is, and takes
/// ids off the queues only to have them polled.
pub proof fn stepping_keeps_tasks(l: LoopView, rt: RuntimeView)
    ensures
        ({
            let (after, rt_after, action) = l.step(rt);
            &&& rt_after.tasks == rt.tasks
            &&& rt_after.reactors == rt.reactors
            &&& rt_after.polling != rt.polling ==> after.batch == rt.polling.queue && after.phase
                == (Phase::Polling { next: 0 })
            &&& rt_after.regular != rt.regular ==> action == LoopAction::PollTask {
                id: rt.regular.queue[0],
            }
        }),
{
}

/// The pause doubles from 2 up to its limit and never passes it.
pub proof fn pause_is_bounded(l: LoopView)
    requires
        1 <= l.pause_ms <= MAX_PAUSE_MS,
        vstd::arithmetic::power2::is_pow2(l.pause_ms),
    ensures
        1 <= l.judged().0.pause_ms <= MAX_PAUSE_MS,
        vstd::arithmetic::power2::is_pow2(l.judged().0.pause_ms),
        l.judged().1 matches LoopAction::Sleep { millis } ==> 1 <= millis <= MAX_PAUSE_MS,
{
    reveal(vstd::arithmetic::power2::is_pow2);
    if l.pause_ms < MAX_PAUSE_MS {
        assert((2 * l.pause_ms) / 2 == l.pause_ms);
        vstd::arithmetic::power2::lemma2_to64();
        vstd::arithmetic::power2::is_pow2_equiv(1024);
        vstd::arithmetic::power2::lemma_pow2(10);
        assert(vstd::arithmetic::power::pow(2, 10) == 1024);
        vstd::arithmetic::power2::is_pow2_equiv(l.pause_ms);
        let e = choose|i: nat| vstd::arithmetic::power::pow(2, i) == l.pause_ms;
        vstd::arithmetic::power2::lemma_pow2(e);
        if e >= 10 {
            if e > 10 {
                vstd::arithmetic::power2::lemma_pow2_strictly_increases(10, e);
            }
        } else {
            vstd::arithmetic::power2::lemma_pow2_unfold(e + 1);
            if e + 1 < 10 {
                vstd::arithmetic::power2::lemma_pow2_strictly_increases(e + 1, 10);
            }
        }
    }
}

} // verus!
