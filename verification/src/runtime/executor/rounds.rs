//! What holds of a loop over time: of its rounds, of what waits in its queues,
//! and of its end.

use crate::runtime::executor::event_loop::{
    LoopAction, LoopMode, LoopView, Phase, MAX_TASKS_PER_CALL,
};
use crate::runtime::executor::{self, RuntimeView};
use crate::runtime::reactor::ReactorStatus;
use crate::runtime::task::{QueueKind, Task};
use vstd::prelude::*;

verus! {

/// A loop and its runtime before a step, and what the caller will report of it.
pub struct Moment {
    pub l: LoopView,
    pub rt: RuntimeView,
    /// The status that the caller reads, if one is asked for.
    pub status: ReactorStatus,
    /// Whether the task that the caller polls, if one is due, is ready.
    pub ready: bool,
}

impl Moment {
    /// What the step decides.
    pub open spec fn action(self) -> LoopAction {
        self.l.step(self.rt).2
    }

    /// The loop is between two rounds or over.
    pub open spec fn stops(self) -> bool {
        self.l.phase == Phase::Check || self.l.phase is Over
    }

    /// A round begins.
    pub open spec fn begins_round(self) -> bool {
        ||| self.l.phase == Phase::Check && !self.l.reached_end(self.rt)
        ||| self.l.phase == (Phase::Search { next: 0 })
    }

    /// The position of the loop lies within what it goes through.
    pub open spec fn sane(self) -> bool {
        match self.l.phase {
            Phase::Search { next } => next <= self.rt.reactors.len(),
            Phase::Reactors { next } => next <= self.rt.reactors.len(),
            Phase::Due { index, .. } => index < self.rt.reactors.len(),
            Phase::Polling { next } => next <= self.l.batch.len() <= usize::MAX,
            Phase::Regular { done } => done <= self.l.regular_limit(),
            _ => true,
        }
    }

    /// How far the round has come, and how much of that part is left.
    pub open spec fn stage(self) -> (int, int) {
        let n = self.rt.reactors.len();
        match self.l.phase {
            Phase::Check => (0, 0),
            Phase::Search { next } => (1, n - next),
            Phase::Reactors { next } => (2, 2 * (n - next)),
            Phase::Due { index, .. } => (2, 2 * (n - index) - 1),
            Phase::Collect => (3, 0),
            Phase::Polling { next } => (4, self.l.batch.len() - next),
            Phase::Regular { done } => (5, self.l.regular_limit() - done),
            Phase::Judge => (6, 0),
            Phase::Over { .. } => (7, 0),
        }
    }
}

/// `after` is `before` with something behind it.
pub open spec fn extends(after: Seq<usize>, before: Seq<usize>) -> bool {
    &&& before.len() <= after.len()
    &&& forall|n: int|
        #![trigger after[n]]
        #![trigger before[n]]
        0 <= n < before.len() ==> after[n] == before[n]
}

/// What wakes and spawns do to the queues: ids are only added behind those that
/// wait.
pub open spec fn only_adds(before: RuntimeView, after: RuntimeView) -> bool {
    &&& extends(after.regular.queue, before.regular.queue)
    &&& extends(after.polling.queue, before.polling.queue)
}

/// The same reactors take part.
pub open spec fn same_reactors(before: RuntimeView, after: RuntimeView) -> bool {
    &&& before.reactors.len() == after.reactors.len()
    &&& forall|i: int|
        #![trigger after.reactors[i]]
        0 <= i < before.reactors.len() ==> after.reactors[i].enable == before.reactors[i].enable
}

/// The lengths can be counted.
pub open spec fn countable(rt: RuntimeView) -> bool {
    rt.reactors.len() <= usize::MAX && rt.polling.queue.len() <= usize::MAX
}

/// `b` comes after `a`: the loop has made its step, and the caller has done what
/// it was to do and reported it. Polling a reactor or a task may wake and spawn
/// tasks; ids leave the queues through the loop only.
pub open spec fn follows(a: Moment, b: Moment) -> bool {
    let (l, rt, action) = a.l.step(a.rt);
    match action {
        LoopAction::ReadStatus { .. } => b.l == l.after_status(a.status) && b.rt == rt,
        LoopAction::PollReactor { .. } => {
            &&& b.l == LoopView { made_progress: true, ..l }
            &&& only_adds(rt, b.rt)
            &&& same_reactors(rt, b.rt)
        },
        LoopAction::PollTask { .. } => {
            &&& b.l == if a.ready {
                LoopView { made_progress: true, ..l }
            } else {
                l
            }
            &&& only_adds(rt, b.rt)
        },
        _ => b.l == l && b.rt == rt,
    }
}

/// Moment `i` of a run and the next one.
pub open spec fn linked(run: spec_fn(nat) -> Moment, i: nat) -> bool {
    follows(run(i), run(i + 1)) && countable(run(i).rt)
}

/// The moments of a loop that is driven on and on. A loop that is over stays so.
pub open spec fn is_run(run: spec_fn(nat) -> Moment) -> bool {
    forall|i: nat| #[trigger] linked(run, i)
}

/// How many rounds have been completed after moment `i` and up to moment `j`.
pub open spec fn rounds_between(run: spec_fn(nat) -> Moment, i: nat, j: nat) -> nat
    decreases j,
{
    if j <= i {
        0
    } else {
        rounds_between(run, i, (j - 1) as nat) + if run(j).l.phase == Phase::Check {
            1nat
        } else {
            0
        }
    }
}

/// How many tasks are polled before moment `n`.
pub open spec fn polls(run: spec_fn(nat) -> Moment, n: nat) -> nat
    decreases n,
{
    if n == 0 {
        0
    } else {
        polls(run, (n - 1) as nat) + if run((n - 1) as nat).action() is PollTask {
            1nat
        } else {
            0
        }
    }
}

/// The reactors that are polled from moment `i` on and before moment `j`.
pub open spec fn polled_reactors(run: spec_fn(nat) -> Moment, i: nat, j: nat) -> Seq<usize>
    decreases j,
{
    if j <= i {
        Seq::empty()
    } else {
        let front = polled_reactors(run, i, (j - 1) as nat);
        match run((j - 1) as nat).action() {
            LoopAction::PollReactor { index } => front.push(index),
            _ => front,
        }
    }
}

/// What the runtime's own operations do to the queues: waking and spawning add
/// an id, polling and completing a task or a reactor leave them as they are.
pub proof fn runtime_only_adds(
    rt: RuntimeView,
    after: RuntimeView,
    kind: QueueKind,
    id: usize,
    name: Option<String>,
    slot: Option<Task>,
    index: int,
    elapsed_ns: u64,
    retain: bool,
)
    ensures
        only_adds(rt, rt.queued(kind, id)),
        executor::spawned(rt, after, id, kind, name) ==> only_adds(rt, after),
        only_adds(rt, rt.with_slot(id, slot)),
        only_adds(rt, rt.completed(id, retain)),
        only_adds(rt, rt.after_reactor_poll(index, elapsed_ns)),
        0 <= index < rt.reactors.len() ==> same_reactors(
            rt,
            rt.after_reactor_poll(index, elapsed_ns),
        ),
{
}

/// One step within a round brings it further.
proof fn lemma_advances(a: Moment, b: Moment)
    requires
        follows(a, b),
        countable(a.rt),
        a.sane(),
    ensures
        b.sane(),
        b.l.mode == a.l.mode,
        !a.stops() && a.l.phase != Phase::Judge ==> {
            ||| b.stage().0 > a.stage().0
            ||| b.stage().0 == a.stage().0 && b.stage().1 < a.stage().1
        },
        a.l.phase == Phase::Judge ==> b.stops(),
        a.stage().1 >= 0,
        0 <= a.stage().0 <= 7,
        a.l.phase is Over ==> b.l.phase == a.l.phase && b.rt == a.rt,
{
}

/// Every round comes to its end: the next check, or the end of the loop.
pub proof fn round_comes_to_its_end(run: spec_fn(nat) -> Moment, i: nat) -> (j: nat)
    requires
        is_run(run),
        run(i).sane(),
        !run(i).stops(),
    ensures
        i < j,
        run(j).stops(),
        forall|m: nat| i <= m < j ==> !(#[trigger] run(m)).stops(),
        run(j).l.mode == run(i).l.mode,
    decreases 7 - run(i).stage().0, run(i).stage().1,
{
    assert(linked(run, i));
    lemma_advances(run(i), run(i + 1));
    if run(i + 1).stops() {
        i + 1
    } else {
        assert(linked(run, i + 1));
        lemma_advances(run(i + 1), run(i + 2));
        round_comes_to_its_end(run, i + 1)
    }
}

/// Adding twice is adding.
proof fn lemma_adds_twice(a: RuntimeView, b: RuntimeView, c: RuntimeView)
    requires
        only_adds(a, b),
        only_adds(b, c),
    ensures
        only_adds(a, c),
{
    assert forall|n: int| 0 <= n < a.regular.queue.len() implies #[trigger] c.regular.queue[n]
        == a.regular.queue[n] by {
        assert(b.regular.queue[n] == a.regular.queue[n]);
    }
    assert forall|n: int| 0 <= n < a.polling.queue.len() implies #[trigger] c.polling.queue[n]
        == a.polling.queue[n] by {
        assert(b.polling.queue[n] == a.polling.queue[n]);
    }
}

/// From among the reactors a round comes to its tasks.
proof fn lemma_to_collect(run: spec_fn(nat) -> Moment, i: nat) -> (j: nat)
    requires
        is_run(run),
        run(i).sane(),
        run(i).l.phase is Search || run(i).l.phase is Reactors || run(i).l.phase is Due,
    ensures
        i < j,
        run(j).l.phase == Phase::Collect,
        run(j).l.mode == run(i).l.mode,
        forall|m: nat|
            i <= m < j ==> !((#[trigger] run(m)).action() is PollTask) && !run(m).stops(),
        only_adds(run(i).rt, run(j).rt),
    decreases 7 - run(i).stage().0, run(i).stage().1,
{
    assert(linked(run, i));
    lemma_advances(run(i), run(i + 1));
    assert(only_adds(run(i).rt, run(i + 1).rt));
    if run(i + 1).l.phase == Phase::Collect {
        i + 1
    } else {
        assert(linked(run, i + 1));
        lemma_advances(run(i + 1), run(i + 2));
        let j = lemma_to_collect(run, i + 1);
        lemma_adds_twice(run(i).rt, run(i + 1).rt, run(j).rt);
        j
    }
}

/// A round deals with the reactors before it touches a task: nothing is polled
/// but reactors until it takes the batch of polling tasks, and what waits in
/// the queues waits until then.
pub proof fn reactors_come_first(run: spec_fn(nat) -> Moment, i: nat) -> (j: nat)
    requires
        is_run(run),
        run(i).begins_round(),
    ensures
        i < j,
        run(j).l.phase == Phase::Collect,
        run(j).l.mode == run(i).l.mode,
        forall|m: nat| i <= m < j ==> !((#[trigger] run(m)).action() is PollTask),
        forall|m: nat| i < m <= j ==> !(#[trigger] run(m)).stops(),
        only_adds(run(i).rt, run(j).rt),
{
    assert(linked(run, i));
    if run(i).l.phase == Phase::Check {
        assert(run(i + 1).rt == run(i).rt);
        lemma_to_collect(run, i + 1)
    } else {
        lemma_to_collect(run, i)
    }
}

/// Within a batch the loop comes to every entry in turn.
proof fn lemma_through_batch(run: spec_fn(nat) -> Moment, i: nat, k: int) -> (j: nat)
    requires
        is_run(run),
        run(i).sane(),
        run(i).l.phase matches Phase::Polling { next } && next <= k <= run(i).l.batch.len(),
    ensures
        i <= j,
        run(j).l.phase == (Phase::Polling { next: k as usize }),
        run(j).l.batch == run(i).l.batch,
        run(j).l.mode == run(i).l.mode,
        run(j).sane(),
        forall|m: nat| i <= m <= j ==> !(#[trigger] run(m)).stops(),
        only_adds(run(i).rt, run(j).rt),
    decreases k - run(i).l.phase->Polling_next,
{
    if run(i).l.phase->Polling_next == k {
        i
    } else {
        assert(linked(run, i));
        lemma_advances(run(i), run(i + 1));
        let j = lemma_through_batch(run, i + 1, k);
        lemma_adds_twice(run(i).rt, run(i + 1).rt, run(j).rt);
        j
    }
}

/// A polling task that waits when a round begins is polled in that round.
pub proof fn queued_polling_task_is_polled(run: spec_fn(nat) -> Moment, i: nat, k: int) -> (j: nat)
    requires
        is_run(run),
        run(i).begins_round(),
        0 <= k < run(i).rt.polling.queue.len(),
    ensures
        i < j,
        run(j).action() == (LoopAction::PollTask { id: run(i).rt.polling.queue[k] }),
        forall|m: nat| i < m <= j ==> !(#[trigger] run(m)).stops(),
        run(j).sane(),
        run(j).l.mode == run(i).l.mode,
{
    let c = reactors_come_first(run, i);
    assert(linked(run, c));
    assert(run(c).rt.polling.queue[k] == run(i).rt.polling.queue[k]);
    lemma_through_batch(run, c + 1, k)
}

/// A round comes to its regular tasks, with what waited for it still waiting.
proof fn lemma_to_regular(run: spec_fn(nat) -> Moment, i: nat) -> (j: nat)
    requires
        is_run(run),
        run(i).begins_round(),
    ensures
        i < j,
        run(j).l.phase == (Phase::Regular { done: 0 }),
        run(j).l.mode == run(i).l.mode,
        forall|m: nat| i < m <= j ==> !(#[trigger] run(m)).stops(),
        extends(run(j).rt.regular.queue, run(i).rt.regular.queue),
{
    let c = reactors_come_first(run, i);
    assert(linked(run, c));
    let b = lemma_through_batch(run, c + 1, run(c + 1).l.batch.len() as int);
    assert(linked(run, b));
    assert forall|n: int| 0 <= n < run(i).rt.regular.queue.len() implies #[trigger] run(
        b,
    ).rt.regular.queue[n] == run(i).rt.regular.queue[n] by {
        assert(run(c).rt.regular.queue[n] == run(i).rt.regular.queue[n]);
        assert(run(c + 1).rt.regular.queue[n] == run(c).rt.regular.queue[n]);
    }
    b + 1
}

/// Where no check lies in between, no round is completed.
proof fn lemma_no_round(run: spec_fn(nat) -> Moment, i: nat, j: nat)
    requires
        forall|m: nat| i < m <= j ==> !(#[trigger] run(m)).stops(),
    ensures
        rounds_between(run, i, j) == 0,
    decreases j,
{
    if j > i {
        assert(!run(j).stops());
        lemma_no_round(run, i, (j - 1) as nat);
    }
}

/// Rounds add up.
proof fn lemma_rounds_add(run: spec_fn(nat) -> Moment, i: nat, j: nat, k: nat)
    requires
        i <= j <= k,
    ensures
        rounds_between(run, i, k) == rounds_between(run, i, j) + rounds_between(run, j, k),
    decreases k,
{
    if k > j {
        lemma_rounds_add(run, i, j, (k - 1) as nat);
    }
}

/// A regular task that waits when a round begins is polled once those before it
/// have been: with `k` ids ahead of it, in the round after `k` others, unless
/// the loop ends before.
pub proof fn queued_task_is_polled(run: spec_fn(nat) -> Moment, i: nat, k: int) -> (j: nat)
    requires
        is_run(run),
        run(i).begins_round(),
        run(i).l.mode != LoopMode::Progress,
        0 <= k < run(i).rt.regular.queue.len(),
    ensures
        i < j,
        run(j).l.mode == run(i).l.mode,
        run(j).sane(),
        if run(j).l.phase is Over {
            rounds_between(run, i, j) <= k
        } else {
            &&& run(j).action() == (LoopAction::PollTask { id: run(i).rt.regular.queue[k] })
            &&& rounds_between(run, i, j) == k
        },
    decreases k,
{
    let id = run(i).rt.regular.queue[k];
    let r = lemma_to_regular(run, i);
    lemma_no_round(run, i, r);
    assert(run(r).rt.regular.queue[k] == id);
    if k == 0 {
        r
    } else {
        assert(linked(run, r));
        assert(run(r + 1).l.phase == (Phase::Regular { done: 1 }));
        let rest = run(r).rt.regular.queue.skip(1);
        assert(rest[k - 1] == id);
        assert(run(r + 1).rt.regular.queue[k - 1] == id);
        assert(linked(run, r + 1));
        assert(run(r + 2).l.phase == Phase::Judge);
        assert(linked(run, r + 2));
        assert(run(r + 3).stops());
        assert(run(r + 3).rt == run(r + 1).rt);
        assert(rounds_between(run, i, r + 1) == 0);
        assert(rounds_between(run, i, r + 2) == 0);
        if run(r + 3).l.phase is Over {
            assert(rounds_between(run, i, r + 3) == 0);
            r + 3
        } else {
            assert(rounds_between(run, i, r + 3) == 1);
            if run(r + 3).l.reached_end(run(r + 3).rt) {
                assert(linked(run, r + 3));
                assert(rounds_between(run, i, r + 4) == 1);
                r + 4
            } else {
                let j = queued_task_is_polled(run, r + 3, k - 1);
                lemma_rounds_add(run, i, r + 3, j);
                j
            }
        }
    }
}

/// A call of `progress` polls the regular tasks that wait when it begins, up to
/// its limit.
pub proof fn progress_polls_queued_tasks(run: spec_fn(nat) -> Moment, i: nat, k: int) -> (j: nat)
    requires
        is_run(run),
        run(i).begins_round(),
        run(i).l.mode == LoopMode::Progress,
        0 <= k < run(i).rt.regular.queue.len(),
        k < MAX_TASKS_PER_CALL,
    ensures
        i < j,
        run(j).action() == (LoopAction::PollTask { id: run(i).rt.regular.queue[k] }),
        forall|m: nat| i < m <= j ==> !(#[trigger] run(m)).stops(),
{
    let r = lemma_to_regular(run, i);
    assert(run(r).rt.regular.queue[k] == run(i).rt.regular.queue[k]);
    lemma_progress_queue(run, r, k)
}

/// From one regular task of `progress` to a later one.
proof fn lemma_progress_queue(run: spec_fn(nat) -> Moment, i: nat, k: int) -> (j: nat)
    requires
        is_run(run),
        run(i).l.mode == LoopMode::Progress,
        run(i).l.phase matches Phase::Regular { done } && done + k < MAX_TASKS_PER_CALL,
        0 <= k < run(i).rt.regular.queue.len(),
    ensures
        i <= j,
        run(j).action() == (LoopAction::PollTask { id: run(i).rt.regular.queue[k] }),
        forall|m: nat| i <= m <= j ==> !(#[trigger] run(m)).stops(),
    decreases k,
{
    if k == 0 {
        i
    } else {
        assert(linked(run, i));
        let rest = run(i).rt.regular.queue.skip(1);
        assert(rest[k - 1] == run(i).rt.regular.queue[k]);
        assert(run(i + 1).rt.regular.queue[k - 1] == rest[k - 1]);
        lemma_progress_queue(run, i + 1, k - 1)
    }
}

/// A call of `progress` comes to its end, and is never stuck.
pub proof fn progress_comes_to_its_end(run: spec_fn(nat) -> Moment, i: nat) -> (j: nat)
    requires
        is_run(run),
        run(i).l.mode == LoopMode::Progress,
        run(i).l.phase == (Phase::Search { next: 0 }),
    ensures
        i < j,
        run(j).l.phase == (Phase::Over { stuck: false }),
{
    let r = lemma_to_regular(run, i);
    lemma_progress_over(run, r)
}

/// From the regular tasks of `progress` to its end.
proof fn lemma_progress_over(run: spec_fn(nat) -> Moment, i: nat) -> (j: nat)
    requires
        is_run(run),
        run(i).l.mode == LoopMode::Progress,
        run(i).l.phase matches Phase::Regular { done } && done <= MAX_TASKS_PER_CALL,
    ensures
        i < j,
        run(j).l.phase == (Phase::Over { stuck: false }),
    decreases MAX_TASKS_PER_CALL - run(i).l.phase->Regular_done,
{
    assert(linked(run, i));
    if run(i + 1).l.phase is Over {
        i + 1
    } else {
        lemma_progress_over(run, i + 1)
    }
}

/// Polls are counted one by one.
proof fn lemma_polls_grow(run: spec_fn(nat) -> Moment, i: nat, j: nat)
    requires
        i <= j,
    ensures
        polls(run, i) <= polls(run, j),
    decreases j,
{
    if i < j {
        lemma_polls_grow(run, i, (j - 1) as nat);
    }
}

/// A loop that is over without being stuck has reached its end.
proof fn lemma_over_at_end(run: spec_fn(nat) -> Moment, i: nat, j: nat)
    requires
        is_run(run),
        i <= j,
        run(i).l.mode != LoopMode::Progress,
        !(run(i).l.phase is Over),
    ensures
        run(j).l.mode == run(i).l.mode,
        run(j).l.phase == (Phase::Over { stuck: false }) ==> run(j).l.reached_end(run(j).rt),
    decreases j,
{
    if i < j {
        let before = (j - 1) as nat;
        lemma_over_at_end(run, i, before);
        assert(linked(run, before));
        assert(before + 1 == j);
    }
}

/// Something waits to be polled.
pub open spec fn has_queued(rt: RuntimeView) -> bool {
    rt.regular.queue.len() > 0 || rt.polling.queue.len() > 0
}

/// From moment `i` on, some task waits at the beginning of a round sooner or
/// later, or the loop is over.
pub open spec fn wakes_later(run: spec_fn(nat) -> Moment, i: nat) -> bool {
    exists|w: nat|
        i <= w && ((#[trigger] run(w)).l.phase is Over || run(w).l.phase == Phase::Check
            && has_queued(run(w).rt))
}

/// Where something waits at a check that is not the last, a task is polled in
/// the round.
proof fn lemma_round_polls(run: spec_fn(nat) -> Moment, i: nat) -> (j: nat)
    requires
        is_run(run),
        run(i).l.phase == Phase::Check,
        !run(i).l.reached_end(run(i).rt),
        run(i).l.mode != LoopMode::Progress,
        has_queued(run(i).rt),
    ensures
        i < j,
        run(j).action() is PollTask,
        run(j).sane(),
        !run(j).stops(),
        run(j).l.mode == run(i).l.mode,
        polls(run, i) < polls(run, j + 1),
{
    let j = if run(i).rt.polling.queue.len() > 0 {
        queued_polling_task_is_polled(run, i, 0)
    } else {
        let r = lemma_to_regular(run, i);
        assert(run(r).rt.regular.queue[0] == run(i).rt.regular.queue[0]);
        r
    };
    lemma_polls_grow(run, i, j);
    j
}

/// A loop whose tasks all become ready ends: if they need no more than `bound`
/// polls together, and as long as the loop has not reached its end some task is
/// woken sooner or later, then the loop is over at some time. It has then
/// reached its end, or it was stuck.
pub proof fn loop_comes_to_its_end(run: spec_fn(nat) -> Moment, i: nat, bound: nat) -> (j: nat)
    requires
        is_run(run),
        run(i).l.phase == Phase::Check,
        run(i).l.mode != LoopMode::Progress,
        forall|n: nat| #[trigger] polls(run, n) <= bound,
        forall|m: nat|
            i <= m && run(m).l.phase == Phase::Check && !run(m).l.reached_end(run(m).rt)
                ==> #[trigger] wakes_later(run, m),
    ensures
        i < j,
        run(j).l.phase is Over,
        run(j).l.phase == (Phase::Over { stuck: false }) ==> run(j).l.reached_end(run(j).rt),
    decreases bound - polls(run, i),
{
    assert(polls(run, i) <= bound);
    assert(linked(run, i));
    if run(i).l.reached_end(run(i).rt) {
        i + 1
    } else {
        assert(wakes_later(run, i));
        let w = choose|w: nat|
            i <= w && ((#[trigger] run(w)).l.phase is Over || run(w).l.phase == Phase::Check
                && has_queued(run(w).rt));
        lemma_over_at_end(run, i, w);
        if run(w).l.phase is Over {
            w
        } else if run(w).l.reached_end(run(w).rt) {
            assert(linked(run, w));
            w + 1
        } else {
            let p = lemma_round_polls(run, w);
            let c = round_comes_to_its_end(run, p);
            lemma_over_at_end(run, i, c);
            if run(c).l.phase is Over {
                c
            } else {
                lemma_polls_grow(run, i, w);
                lemma_polls_grow(run, p + 1, c);
                assert(polls(run, c) <= bound);
                loop_comes_to_its_end(run, c, bound)
            }
        }
    }
}

/// Progress that a round has made counts at its end: the loop goes on.
proof fn lemma_progress_counts(run: spec_fn(nat) -> Moment, i: nat) -> (j: nat)
    requires
        is_run(run),
        run(i).sane(),
        run(i).l.mode != LoopMode::Progress,
        !run(i).stops(),
        run(i).l.made_progress,
    ensures
        i < j,
        run(j).l.phase == Phase::Check,
        run(j).l.mode == run(i).l.mode,
    decreases 7 - run(i).stage().0, run(i).stage().1,
{
    assert(linked(run, i));
    lemma_advances(run(i), run(i + 1));
    if run(i + 1).stops() {
        i + 1
    } else {
        assert(linked(run, i + 1));
        lemma_advances(run(i + 1), run(i + 2));
        lemma_progress_counts(run, i + 1)
    }
}

/// A loop whose tasks are ready whenever they are polled reaches its end and is
/// never stuck, provided that some task waits at every check before.
pub proof fn ready_tasks_are_finished(run: spec_fn(nat) -> Moment, i: nat, bound: nat) -> (j: nat)
    requires
        is_run(run),
        run(i).l.phase == Phase::Check,
        run(i).l.mode != LoopMode::Progress,
        forall|n: nat| #[trigger] polls(run, n) <= bound,
        forall|m: nat|
            i <= m && (#[trigger] run(m)).l.phase == Phase::Check && !run(m).l.reached_end(
                run(m).rt,
            ) ==> has_queued(run(m).rt),
        forall|m: nat| i <= m && (#[trigger] run(m)).action() is PollTask ==> run(m).ready,
    ensures
        i < j,
        run(j).l.phase == (Phase::Over { stuck: false }),
        run(j).l.reached_end(run(j).rt),
    decreases bound - polls(run, i),
{
    assert(polls(run, i) <= bound);
    assert(linked(run, i));
    if run(i).l.reached_end(run(i).rt) {
        i + 1
    } else {
        let p = lemma_round_polls(run, i);
        assert(linked(run, p));
        lemma_advances(run(p), run(p + 1));
        let c = lemma_progress_counts(run, p + 1);
        lemma_polls_grow(run, p + 1, c);
        assert(polls(run, c) <= bound);
        ready_tasks_are_finished(run, c, bound)
    }
}

/// At its turn a reactor's status is read, and decides on it at once: a running
/// reactor is polled next, a stopped one is passed over, and after one that
/// requires exclusive access no other is polled in the round.
pub proof fn status_is_read_before_the_poll(
    l: LoopView,
    rt: RuntimeView,
    next: usize,
    status: ReactorStatus,
)
    requires
        l.phase == (Phase::Reactors { next }),
        next < rt.reactors.len() <= usize::MAX,
        rt.reactors[next as int].enable,
    ensures
        l.step(rt) == (l, rt, LoopAction::ReadStatus { index: next }),
        ({
            let passed = l.at(Phase::Reactors { next: (next + 1) as usize });
            let answered = l.after_status(status);
            match status {
                ReactorStatus::Running => answered.step(rt) == (
                    passed,
                    rt,
                    LoopAction::PollReactor { index: next },
                ),
                ReactorStatus::Stopped => answered == passed,
                ReactorStatus::Blocking => answered.step(rt) == (
                    l.at(Phase::Collect),
                    rt,
                    LoopAction::PollReactor { index: next },
                ),
            }
        }),
{
}

/// While a round looks for a reactor that requires exclusive access, it polls
/// none.
proof fn lemma_search_polls_none(run: spec_fn(nat) -> Moment, i: nat, m: nat)
    requires
        is_run(run),
        i <= m,
        run(i).l.phase is Search,
        forall|n: nat| i <= n <= m ==> !(#[trigger] run(n)).stops(),
        run(m).l.phase is Search,
    ensures
        polled_reactors(run, i, m) == Seq::<usize>::empty(),
        forall|n: nat| i <= n <= m ==> (#[trigger] run(n)).l.phase is Search,
    decreases m,
{
    if i < m {
        let before = (m - 1) as nat;
        assert(before + 1 == m);
        assert(linked(run, before));
        assert(!run(before).stops());
        lemma_search_polls_none(run, i, before);
    }
}

/// A reactor that a round finds to require exclusive access is the only one
/// that the round polls.
pub proof fn exclusive_reactor_is_polled_alone(
    run: spec_fn(nat) -> Moment,
    i: nat,
    m: nat,
    index: usize,
)
    requires
        is_run(run),
        run(i).l.phase == (Phase::Search { next: 0 }),
        i <= m,
        forall|n: nat| i <= n <= m ==> !(#[trigger] run(n)).stops(),
        run(m).l.phase is Search,
        run(m).action() == (LoopAction::ReadStatus { index }),
        run(m).status == ReactorStatus::Blocking,
    ensures
        run(m + 2).l.phase == Phase::Collect,
        polled_reactors(run, i, m + 2) == seq![index],
{
    lemma_search_polls_none(run, i, m);
    assert(linked(run, m));
    assert(linked(run, m + 1));
    assert(polled_reactors(run, i, m + 1) =~= Seq::<usize>::empty());
    assert(polled_reactors(run, i, m + 2) =~= seq![index]);
}

/// The search of a round asks every enabled reactor before any reactor is
/// polled, unless one before it requires exclusive access.
pub proof fn search_asks_every_reactor(
    run: spec_fn(nat) -> Moment,
    i: nat,
    from: usize,
    r: usize,
) -> (j: nat)
    requires
        is_run(run),
        run(i).l.phase == (Phase::Search { next: from }),
        from <= r < run(i).rt.reactors.len(),
        run(i).rt.reactors[r as int].enable,
    ensures
        i <= j,
        forall|m: nat| i <= m <= j ==> (#[trigger] run(m)).l.phase is Search,
        run(j).action() matches LoopAction::ReadStatus { index } && (index == r || (index < r
            && run(j).status == ReactorStatus::Blocking)),
    decreases r - from,
{
    assert(linked(run, i));
    if from == r || (run(i).rt.reactors[from as int].enable && run(i).status
        == ReactorStatus::Blocking) {
        i
    } else {
        search_asks_every_reactor(run, i + 1, (from + 1) as usize, r)
    }
}

/// From one reactor's turn to that of a later one.
proof fn lemma_turn_comes(run: spec_fn(nat) -> Moment, i: nat, c: nat, r: usize) -> (j: nat)
    requires
        is_run(run),
        run(i).sane(),
        match run(i).l.phase {
            Phase::Search { .. } => true,
            Phase::Reactors { next } => next <= r,
            Phase::Due { index, alone } => index < r && !alone,
            _ => false,
        },
        r < run(i).rt.reactors.len(),
        i <= c,
        run(c).l.phase == Phase::Collect,
        forall|m: nat|
            i <= m < c && (#[trigger] run(m)).action() is ReadStatus ==> run(m).status
                != ReactorStatus::Blocking,
    ensures
        i <= j < c,
        run(j).l.phase == (Phase::Reactors { next: r }),
        run(j).sane(),
        same_reactors(run(i).rt, run(j).rt),
        forall|m: nat| i <= m <= j ==> !(#[trigger] run(m)).stops(),
    decreases 7 - run(i).stage().0, run(i).stage().1,
{
    if run(i).l.phase == (Phase::Reactors { next: r }) {
        i
    } else {
        assert(linked(run, i));
        lemma_advances(run(i), run(i + 1));
        assert(same_reactors(run(i).rt, run(i + 1).rt));
        assert(linked(run, i + 1));
        lemma_advances(run(i + 1), run(i + 2));
        let j = lemma_turn_comes(run, i + 1, c, r);
        assert(same_reactors(run(i).rt, run(j).rt)) by {
            assert forall|n: int| 0 <= n < run(i).rt.reactors.len() implies (#[trigger] run(
                j,
            ).rt.reactors[n]).enable == run(i).rt.reactors[n].enable by {
                assert(run(i + 1).rt.reactors[n].enable == run(i).rt.reactors[n].enable);
            }
        }
        j
    }
}

/// Where a round, from moment `i` until it takes its batch at moment `c`, meets
/// no reactor that requires exclusive access, every enabled reactor has its
/// turn: its status is read, and it is polled next exactly if it is then
/// running.
pub proof fn running_reactors_are_polled(
    run: spec_fn(nat) -> Moment,
    i: nat,
    c: nat,
    r: usize,
) -> (j: nat)
    requires
        is_run(run),
        run(i).l.phase == (Phase::Search { next: 0 }),
        i <= c,
        run(c).l.phase == Phase::Collect,
        r < run(i).rt.reactors.len(),
        run(i).rt.reactors[r as int].enable,
        forall|m: nat|
            i <= m < c && (#[trigger] run(m)).action() is ReadStatus ==> run(m).status
                != ReactorStatus::Blocking,
    ensures
        i <= j < c,
        forall|m: nat| i <= m <= j ==> !(#[trigger] run(m)).stops(),
        run(j).l.phase == (Phase::Reactors { next: r }),
        run(j).action() == (LoopAction::ReadStatus { index: r }),
        run(j + 1).action() == (LoopAction::PollReactor { index: r }) <==> run(j).status
            == ReactorStatus::Running,
{
    let j = lemma_turn_comes(run, i, c, r);
    assert(run(j).rt.reactors[r as int].enable == run(i).rt.reactors[r as int].enable);
    assert(linked(run, j));
    j
}

} // verus!
