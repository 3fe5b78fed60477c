//! Tasks, their shared state with whoever awaits them, and their wakers.

pub mod stat;
pub mod waker;

use crate::runtime::task::stat::TaskStat;
use vstd::prelude::*;

verus! {

/// Outcome of a poll.
#[derive(Debug, Clone, Copy, PartialEq, Eq)]
pub enum Poll<T> {
    Ready(T),
    Pending,
}

/// State shared between a running task and its `JoinHandle`: the result of
/// type `V` once there is one, and the waker `W` of whoever waits for it.
#[derive(Debug)]
pub struct SharedState<V, W> {
    pub waker: Option<W>,
    pub result: Option<Result<V, String>>,
}

impl<V, W> Default for SharedState<V, W> {
    fn default() -> (s: Self)
        ensures
            s.waker is None,
            s.result is None,
    {
        Self::new()
    }
}

impl<V, W> SharedState<V, W> {
    /// No result, nobody waits.
    pub fn new() -> (s: Self)
        ensures
            s.waker is None,
            s.result is None,
    {
        SharedState { waker: None, result: None }
    }

    /// The task has finished with `value`. Returns the waker to wake.
    pub fn complete(&mut self, value: V) -> (w: Option<W>)
        ensures
            final(self).result == Some(Ok::<V, String>(value)),
            final(self).waker is None,
            w == old(self).waker,
    {
        self.result = Some(Ok(value));
        self.waker.take()
    }
}

/// Handle by which the output of a task is awaited.
pub struct JoinHandle<T> {
    pub type_data: core::marker::PhantomData<T>,
}

impl<T> JoinHandle<T> {
    /// Take the result if there is one; otherwise leave the waker behind.
    pub fn poll<W>(&self, shared: &mut SharedState<T, W>, waker: W) -> (r: Poll<
        Result<T, String>,
    >)
        ensures
            match old(shared).result {
                Some(result) => {
                    &&& r == Poll::Ready(result)
                    &&& final(shared).result is None
                    &&& final(shared).waker == old(shared).waker
                },
                None => {
                    &&& r is Pending
                    &&& final(shared).result is None
                    &&& final(shared).waker == Some(waker)
                },
            },
    {
        match shared.result.take() {
            Some(result) => Poll::Ready(result),
            None => {
                shared.waker = Some(waker);
                Poll::Pending
            },
        }
    }
}

/// The queue that a task is scheduled on.
#[derive(Debug, Clone, Copy, PartialEq, Eq, Structural)]
pub enum QueueKind {
    /// Tasks that run when woken, one per round of the loop.
    Regular,
    /// Tasks that are polled as a batch in every round.
    Polling,
}

/// A spawned task: the queue that it is woken onto and its statistics. The
/// future itself stays with the caller, under the task's id.
#[derive(Debug)]
pub struct Task {
    pub queue: QueueKind,
    pub task_stat: Option<TaskStat>,
}

impl Task {
    /// A task that has not run.
    pub fn new(queue: QueueKind, task_name: Option<String>) -> (t: Task)
        ensures
            t.queue == queue,
            t.task_stat matches Some(stat) && stat.is_fresh(task_name),
    {
        Task { queue, task_stat: Some(TaskStat::new(task_name)) }
    }

    /// A poll of the task starts at `now`.
    pub fn poll_started(&mut self, now: u128)
        ensures
            final(self).queue == old(self).queue,
            match old(self).task_stat {
                Some(stat) => final(self).task_stat == Some(stat.after_start(now)),
                None => final(self).task_stat is None,
            },
    {
        match self.task_stat.take() {
            Some(mut stat) => {
                stat.set_start_time(now);
                self.task_stat = Some(stat);
            },
            None => {},
        }
    }

    /// The poll that started at `now` took `elapsed_ns` and the task is `ready`
    /// or not.
    pub fn poll_ended(&mut self, now: u128, elapsed_ns: u64, ready: bool)
        requires
            old(self).task_stat matches Some(stat) ==> stat.execute_time_ns + elapsed_ns
                <= u64::MAX,
            now + elapsed_ns <= u128::MAX,
        ensures
            final(self).queue == old(self).queue,
            match old(self).task_stat {
                Some(stat) => final(self).task_stat == Some(
                    stat.after_poll(now, elapsed_ns, ready),
                ),
                None => final(self).task_stat is None,
            },
    {
        match self.task_stat.take() {
            Some(mut stat) => {
                stat.add_execute_time(elapsed_ns);
                if ready {
                    stat.set_end_time(now + elapsed_ns as u128);
                }
                self.task_stat = Some(stat);
            },
            None => {},
        }
    }
}

} // verus!
