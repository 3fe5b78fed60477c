//! Task executor: the pool of tasks, their queues, the registered reactors and
//! the statistics.
//!
//! Futures and reactors themselves stay with the caller: futures under their
//! task's id, reactors under their index.

pub mod event_loop;
pub mod pool;
pub mod rounds;
pub mod spsc;
pub mod stat;

use crate::runtime::executor::pool::{
    pool_contains, pool_get, pool_get_mut, pool_insert, pool_keys, pool_len, pool_remove,
    pool_with_capacity,
};
use crate::runtime::executor::spsc::{
    unbounded, Channel, ChannelView, Receiver, Sender, DEFAULT_INIT,
};
use crate::runtime::executor::stat::RuntimeStat;
use crate::runtime::task::stat::TaskStat;
use crate::runtime::task::waker::PluvioWaker;
use crate::runtime::task::{QueueKind, Task};
use crate::text;
use slab::Slab;
use vstd::prelude::*;

verus! {

/// Book-keeping for a registered reactor.
#[derive(Debug)]
pub struct ReactorWrapper {
    pub id: String,
    /// Number of times the reactor has been polled.
    pub poll_counter: usize,
    /// Whether this reactor is currently enabled.
    pub enable: bool,
}

/// The runtime: tasks, queues, reactors and statistics.
pub struct Runtime {
    reactors: Vec<ReactorWrapper>,
    task_queue: Channel<usize>,
    task_sender: Sender,
    task_receiver: Receiver,
    polling_queue: Channel<usize>,
    polling_sender: Sender,
    polling_receiver: Receiver,
    task_pool: Slab<Option<Task>>,
    stat: RuntimeStat,
}

/// The state of a runtime.
#[verifier::ext_equal]
pub struct RuntimeView {
    /// Registered reactors, by index.
    pub reactors: Seq<ReactorWrapper>,
    /// Ids of woken tasks.
    pub regular: ChannelView<usize>,
    /// Ids of woken polling tasks.
    pub polling: ChannelView<usize>,
    /// Task slots; a slot is empty while its task is being polled.
    pub tasks: Map<usize, Option<Task>>,
    /// Statistics of finished tasks, as far as they are kept.
    pub finished: Seq<TaskStat>,
    /// Time spent polling reactors.
    pub polling_time: u64,
}

impl RuntimeView {
    /// The queue of a kind.
    pub open spec fn queue(self, kind: QueueKind) -> ChannelView<usize> {
        match kind {
            QueueKind::Regular => self.regular,
            QueueKind::Polling => self.polling,
        }
    }

    /// The state with `id` queued behind what waits on the queue of `kind`.
    pub open spec fn queued(self, kind: QueueKind, id: usize) -> RuntimeView {
        match kind {
            QueueKind::Regular => RuntimeView { regular: self.regular.after_send(id), ..self },
            QueueKind::Polling => RuntimeView { polling: self.polling.after_send(id), ..self },
        }
    }

    /// The state with task slot `id` holding `slot`.
    pub open spec fn with_slot(self, id: usize, slot: Option<Task>) -> RuntimeView {
        RuntimeView { tasks: self.tasks.insert(id, slot), ..self }
    }

    /// Task `id` is there and not being polled.
    pub open spec fn pollable(self, id: usize) -> bool {
        self.tasks.contains_key(id) && self.tasks[id] is Some
    }

    /// The state with one more poll of reactor `index`, which took
    /// `elapsed_ns`, counted.
    pub open spec fn after_reactor_poll(self, index: int, elapsed_ns: u64) -> RuntimeView {
        RuntimeView {
            polling_time: (self.polling_time + elapsed_ns) as u64,
            reactors: self.reactors.update(
                index,
                ReactorWrapper {
                    poll_counter: (self.reactors[index].poll_counter + 1) as usize,
                    ..self.reactors[index]
                },
            ),
            ..self
        }
    }

    /// A poll of reactor `index` that takes `elapsed_ns` can be counted.
    pub open spec fn counts_poll(self, index: int, elapsed_ns: u64) -> bool {
        &&& 0 <= index < self.reactors.len()
        &&& self.reactors[index].poll_counter < usize::MAX
        &&& self.polling_time + elapsed_ns <= u64::MAX
    }

    /// The state after task `id` has been completed: its slot is gone, and its
    /// statistics are kept if `retain` asks for it.
    pub open spec fn completed(self, id: usize, retain: bool) -> RuntimeView {
        RuntimeView {
            tasks: self.tasks.remove(id),
            finished: match self.tasks[id] {
                Some(t) if retain => self.finished.push(t.task_stat->0.finished()),
                _ => self.finished,
            },
            ..self
        }
    }
}

/// Every task that is in its slot has its statistics.
pub open spec fn tasks_have_stats(slots: Map<usize, Option<Task>>) -> bool {
    forall|id: usize|
        #[trigger] slots.contains_key(id) ==> (slots[id] matches Some(t) ==> t.task_stat is Some)
}

/// A fresh task of this kind and name.
pub open spec fn fresh_task(t: Task, kind: QueueKind, task_name: Option<String>) -> bool {
    &&& t.queue == kind
    &&& t.task_stat matches Some(stat)
    &&& stat.is_fresh(task_name)
}

/// `after` is `before` with a fresh task spawned under `id`: the id was vacant,
/// and it is queued once, behind everything on its queue.
pub open spec fn spawned(
    before: RuntimeView,
    after: RuntimeView,
    id: usize,
    kind: QueueKind,
    task_name: Option<String>,
) -> bool {
    &&& !before.tasks.contains_key(id)
    &&& after.tasks.contains_key(id)
    &&& after.tasks[id] matches Some(t)
    &&& fresh_task(t, kind, task_name)
    &&& after == before.with_slot(id, Some(t)).queued(kind, id)
}

/// The name of a task, empty if it has none.
pub open spec fn name_of(stat: TaskStat) -> Seq<char> {
    match stat.task_name {
        Some(s) => s@,
        None => Seq::empty(),
    }
}

/// Statistics of the tasks in the slots `keys` whose name contains `name`, in
/// that order.
pub open spec fn running_matches(
    slots: Map<usize, Option<Task>>,
    keys: Seq<usize>,
    name: Seq<char>,
) -> Seq<TaskStat>
    decreases keys.len(),
{
    if keys.len() == 0 {
        Seq::empty()
    } else {
        let front = running_matches(slots, keys.drop_last(), name);
        match slots[keys.last()] {
            Some(t) => match t.task_stat {
                Some(stat) => if text::occurs_in(name, name_of(stat)) {
                    front.push(stat)
                } else {
                    front
                },
                None => front,
            },
            None => front,
        }
    }
}

/// The finished tasks whose name contains `name`, in order.
pub open spec fn finished_matches(stats: Seq<TaskStat>, name: Seq<char>) -> Seq<TaskStat>
    decreases stats.len(),
{
    if stats.len() == 0 {
        Seq::empty()
    } else {
        let front = finished_matches(stats.drop_last(), name);
        if text::occurs_in(name, name_of(stats.last())) {
            front.push(stats.last())
        } else {
            front
        }
    }
}

/// The execution time of the finished tasks whose name contains `name`.
pub open spec fn total_time(stats: Seq<TaskStat>, name: Seq<char>) -> nat
    decreases stats.len(),
{
    if stats.len() == 0 {
        0
    } else {
        total_time(stats.drop_last(), name) + if text::occurs_in(name, name_of(stats.last())) {
            stats.last().execute_time_ns as nat
        } else {
            0nat
        }
    }
}

/// The real time by which finished tasks are compared: nanoseconds in 64 bits,
/// 0 where it is unknown.
pub open spec fn real_time(stat: TaskStat) -> int {
    match stat.elapsed() {
        Some(d) => d % 0x1_0000_0000_0000_0000,
        None => 0,
    }
}

/// Entry `i` is the longest of the finished tasks, the last of several.
pub open spec fn longest_at(stats: Seq<TaskStat>, i: int) -> bool {
    &&& 0 <= i < stats.len()
    &&& !stats[i].running
    &&& forall|j: int|
        0 <= j < stats.len() && !(#[trigger] stats[j]).running ==> real_time(stats[j])
            <= real_time(stats[i]) && (j > i ==> real_time(stats[j]) < real_time(stats[i]))
}

/// A shorter list of finished tasks took no longer.
proof fn lemma_total_time_grows(stats: Seq<TaskStat>, name: Seq<char>, k: int)
    requires
        0 <= k <= stats.len(),
    ensures
        total_time(stats.take(k), name) <= total_time(stats, name),
    decreases stats.len(),
{
    if k == stats.len() {
        assert(stats.take(k) =~= stats);
    } else {
        assert(stats.drop_last().take(k) =~= stats.take(k));
        lemma_total_time_grows(stats.drop_last(), name, k);
    }
}

impl View for Runtime {
    type V = RuntimeView;

    closed spec fn view(&self) -> RuntimeView {
        RuntimeView {
            reactors: self.reactors@,
            regular: self.task_queue@,
            polling: self.polling_queue@,
            tasks: pool::task_slots(self.task_pool),
            finished: self.stat.finished_task_stats@,
            polling_time: self.stat.pool_and_completion_time,
        }
    }
}

impl Runtime {
    /// The queues are intact, and every task in its slot has its statistics.
    pub closed spec fn wf(&self) -> bool {
        &&& self.task_queue.wf()
        &&& self.polling_queue.wf()
        &&& tasks_have_stats(pool::task_slots(self.task_pool))
    }

    /// A runtime with room for `queue_size` tasks before its pool grows.
    pub fn new(queue_size: u64) -> (rt: Runtime)
        requires
            queue_size * 1024 <= isize::MAX,
        ensures
            rt.wf(),
            rt@ == (RuntimeView {
                reactors: Seq::empty(),
                regular: spsc::fresh(DEFAULT_INIT as int, true),
                polling: spsc::fresh(DEFAULT_INIT as int, true),
                tasks: Map::empty(),
                finished: Seq::empty(),
                polling_time: 0,
            }),
    {
        let (task_queue, task_sender, task_receiver) = unbounded::<usize>();
        let (polling_queue, polling_sender, polling_receiver) = unbounded::<usize>();
        let rt = Runtime {
            reactors: Vec::new(),
            task_queue,
            task_sender,
            task_receiver,
            polling_queue,
            polling_sender,
            polling_receiver,
            task_pool: pool_with_capacity(queue_size as usize),
            stat: RuntimeStat::new(),
        };
        assert(rt@.reactors =~= Seq::empty());
        assert(rt@.finished =~= Seq::empty());
        rt
    }

    /// Whether a task can be queued on the queue of `kind`.
    pub fn can_queue(&self, kind: QueueKind) -> (r: bool)
        requires
            self.wf(),
        ensures
            r == self@.queue(kind).accepts(),
    {
        match kind {
            QueueKind::Regular => self.task_queue.accepts(),
            QueueKind::Polling => self.polling_queue.accepts(),
        }
    }

    /// Put a task into the pool and queue it.
    fn spawn(&mut self, kind: QueueKind, task_name: Option<String>) -> (id: usize)
        requires
            old(self).wf(),
            old(self)@.queue(kind).accepts(),
        ensures
            final(self).wf(),
            spawned(old(self)@, final(self)@, id, kind, task_name),
    {
        let task = Task::new(kind, task_name);
        let id: usize = pool_insert(&mut self.task_pool, Some(task));
        self.enqueue(kind, id);
        id
    }

    /// Queue `id` on the queue of `kind`.
    fn enqueue(&mut self, kind: QueueKind, id: usize)
        requires
            old(self).wf(),
            old(self)@.queue(kind).accepts(),
        ensures
            final(self).wf(),
            final(self)@ == old(self)@.queued(kind, id),
    {
        match kind {
            QueueKind::Regular => {
                let _ = self.task_sender.send(&mut self.task_queue, id);
            },
            QueueKind::Polling => {
                let _ = self.polling_sender.send(&mut self.polling_queue, id);
            },
        }
    }

    /// Spawn a task. The caller keeps its future under the returned id.
    pub fn spawn_with_runtime(&mut self) -> (id: usize)
        requires
            old(self).wf(),
            old(self)@.regular.accepts(),
        ensures
            final(self).wf(),
            spawned(old(self)@, final(self)@, id, QueueKind::Regular, None),
    {
        self.spawn(QueueKind::Regular, None)
    }

    /// Spawn a task that is polled in the polling queue.
    pub fn spawn_polling_with_runtime(&mut self) -> (id: usize)
        requires
            old(self).wf(),
            old(self)@.polling.accepts(),
        ensures
            final(self).wf(),
            spawned(old(self)@, final(self)@, id, QueueKind::Polling, None),
    {
        self.spawn(QueueKind::Polling, None)
    }

    /// Spawn a task under a name for the statistics.
    pub fn spawn_with_name_and_runtime(&mut self, task_name: String) -> (id: usize)
        requires
            old(self).wf(),
            old(self)@.regular.accepts(),
        ensures
            final(self).wf(),
            spawned(old(self)@, final(self)@, id, QueueKind::Regular, Some(task_name)),
    {
        self.spawn(QueueKind::Regular, Some(task_name))
    }

    /// Spawn a task under a name onto the polling queue.
    pub fn spawn_polling_with_name_and_runtime(&mut self, task_name: String) -> (id: usize)
        requires
            old(self).wf(),
            old(self)@.polling.accepts(),
        ensures
            final(self).wf(),
            spawned(old(self)@, final(self)@, id, QueueKind::Polling, Some(task_name)),
    {
        self.spawn(QueueKind::Polling, Some(task_name))
    }

    /// A waker was called: its task goes back onto its queue.
    pub fn wake(&mut self, waker: PluvioWaker)
        requires
            old(self).wf(),
            old(self)@.queue(waker.queue).accepts(),
        ensures
            final(self).wf(),
            final(self)@ == old(self)@.queued(waker.queue, waker.task_id),
    {
        self.enqueue(waker.queue, waker.task_id)
    }

    /// Register a reactor under `id`; one that is registered under it already
    /// is replaced. Returns the reactor's index.
    pub fn register_reactor(&mut self, id: String) -> (index: usize)
        requires
            old(self).wf(),
        ensures
            final(self).wf(),
            ({
                let before = old(self)@.reactors;
                let after = final(self)@.reactors;
                let entry = ReactorWrapper { id, poll_counter: 0, enable: true };
                &&& final(self)@ == (RuntimeView { reactors: after, ..old(self)@ })
                &&& if exists|i: int| 0 <= i < before.len() && #[trigger] before[i].id@ == id@ {
                    &&& index < before.len()
                    &&& before[index as int].id@ == id@
                    &&& forall|i: int| 0 <= i < index ==> #[trigger] before[i].id@ != id@
                    &&& after == before.update(index as int, entry)
                } else {
                    index == before.len() && after == before.push(entry)
                }
            }),
    {
        let mut i: usize = 0;
        while i < self.reactors.len()
            invariant
                *self == *old(self),
                self.wf(),
                i <= self.reactors@.len(),
                forall|j: int| 0 <= j < i ==> #[trigger] self.reactors@[j].id@ != id@,
            decreases self.reactors@.len() - i,
        {
            if self.reactors[i].id == id {
                self.reactors.set(i, ReactorWrapper { id, poll_counter: 0, enable: true });
                return i;
            }
            i += 1;
        }
        self.reactors.push(ReactorWrapper { id, poll_counter: 0, enable: true });
        i
    }

    /// The number of registered reactors.
    pub fn reactor_count(&self) -> (n: usize)
        ensures
            n == self@.reactors.len(),
    {
        self.reactors.len()
    }

    /// Whether reactor `index` takes part in the loop.
    pub fn reactor_enabled(&self, index: usize) -> (r: bool)
        requires
            index < self@.reactors.len(),
        ensures
            r == self@.reactors[index as int].enable,
    {
        self.reactors[index].enable
    }

    /// How often reactor `index` has been polled.
    pub fn reactor_poll_count(&self, index: usize) -> (n: usize)
        requires
            index < self@.reactors.len(),
        ensures
            n == self@.reactors[index as int].poll_counter,
    {
        self.reactors[index].poll_counter
    }

    /// A poll of reactor `index` that takes this long can be counted.
    pub fn can_count_poll(&self, index: usize, elapsed_ns: u64) -> (r: bool)
        ensures
            r == self@.counts_poll(index as int, elapsed_ns),
    {
        index < self.reactors.len() && self.reactors[index].poll_counter < usize::MAX
            && self.stat.pool_and_completion_time <= u64::MAX - elapsed_ns
    }

    /// Reactor `index` was polled, which took `elapsed_ns`.
    pub fn reactor_polled(&mut self, index: usize, elapsed_ns: u64)
        requires
            old(self).wf(),
            old(self)@.counts_poll(index as int, elapsed_ns),
        ensures
            final(self).wf(),
            final(self)@ == old(self)@.after_reactor_poll(index as int, elapsed_ns),
    {
        let count: usize = self.reactors[index].poll_counter;
        self.reactors[index].poll_counter = count + 1;
        self.stat.add_pool_and_completion_time(elapsed_ns);
        assert(self@.reactors =~= old(self)@.after_reactor_poll(
            index as int,
            elapsed_ns,
        ).reactors);
    }

    /// The number of tasks in the pool.
    pub fn task_count(&self) -> (n: usize)
        ensures
            n == self@.tasks.dom().len(),
            (n == 0) == (self@.tasks == Map::<usize, Option<Task>>::empty()),
    {
        pool_len(&self.task_pool)
    }

    /// Whether task `id` is in the pool.
    pub fn contains_task(&self, id: usize) -> (r: bool)
        ensures
            r == self@.tasks.contains_key(id),
    {
        pool_contains(&self.task_pool, id)
    }

    /// Take everything off the polling queue.
    pub fn take_polling(&mut self) -> (batch: Vec<usize>)
        requires
            old(self).wf(),
        ensures
            final(self).wf(),
            batch@ == old(self)@.polling.queue,
            final(self)@ == (RuntimeView {
                polling: ChannelView { queue: Seq::empty(), ..old(self)@.polling },
                ..old(self)@
            }),
    {
        let mut batch: Vec<usize> = Vec::new();
        let mut waiting: usize = self.polling_queue.len();
        let ghost start = self.polling_queue@;
        while waiting > 0
            invariant
                self.wf(),
                waiting == self.polling_queue@.queue.len(),
                batch@ + self.polling_queue@.queue =~= start.queue,
                self.polling_queue@ == (ChannelView {
                    queue: self.polling_queue@.queue,
                    ..start
                }),
                start == old(self)@.polling,
                self@ == (RuntimeView { polling: self.polling_queue@, ..old(self)@ }),
            decreases waiting,
        {
            match self.polling_receiver.try_recv(&mut self.polling_queue) {
                Ok(id) => {
                    batch.push(id);
                },
                Err(_) => {},
            }
            waiting = waiting - 1;
        }
        assert(self.polling_queue@.queue =~= Seq::empty());
        assert(batch@ =~= start.queue);
        batch
    }

    /// Take the next id off the regular queue.
    pub fn take_regular(&mut self) -> (id: Option<usize>)
        requires
            old(self).wf(),
        ensures
            final(self).wf(),
            match id {
                Some(id) => {
                    &&& old(self)@.regular.queue.len() > 0
                    &&& id == old(self)@.regular.queue[0]
                    &&& final(self)@ == (RuntimeView {
                        regular: old(self)@.regular.after_recv(),
                        ..old(self)@
                    })
                },
                None => old(self)@.regular.queue.len() == 0 && final(self)@ == old(self)@,
            },
    {
        match self.task_receiver.try_recv(&mut self.task_queue) {
            Ok(id) => Some(id),
            Err(_) => None,
        }
    }

    /// A poll of task `id` starts at `now`: the task is taken out of its slot.
    /// `None` means that there is no such task or that it is being polled
    /// already.
    pub fn poll_task(&mut self, id: usize, now: u128) -> (task: Option<Task>)
        requires
            old(self).wf(),
        ensures
            final(self).wf(),
            task is Some <==> old(self)@.pollable(id),
            match task {
                Some(t) => {
                    &&& old(self)@.pollable(id)
                    &&& t.queue == old(self)@.tasks[id]->0.queue
                    &&& old(self)@.tasks[id]->0.task_stat matches Some(stat)
                    &&& t.task_stat == Some(stat.after_start(now))
                    &&& final(self)@ == old(self)@.with_slot(id, None)
                },
                None => !old(self)@.pollable(id) && final(self)@ == old(self)@,
            },
    {
        let taken = match pool_get_mut(&mut self.task_pool, id) {
            Some(slot) => slot.take(),
            None => None,
        };
        match taken {
            Some(mut task) => {
                task.poll_started(now);
                Some(task)
            },
            None => {
                assert(self@.tasks =~= old(self)@.tasks);
                None
            },
        }
    }

    /// The poll of task `id` that started at `now` is over: the task goes back
    /// into its slot. Returns `false` if the slot is gone.
    pub fn finish_poll(
        &mut self,
        id: usize,
        task: Task,
        now: u128,
        elapsed_ns: u64,
        ready: bool,
    ) -> (r: bool)
        requires
            old(self).wf(),
            task.task_stat matches Some(stat) && stat.execute_time_ns + elapsed_ns <= u64::MAX,
            now + elapsed_ns <= u128::MAX,
        ensures
            final(self).wf(),
            r == old(self)@.tasks.contains_key(id),
            if r {
                &&& final(self)@.tasks[id] matches Some(t)
                &&& t.queue == task.queue
                &&& t.task_stat == Some(task.task_stat->0.after_poll(now, elapsed_ns, ready))
                &&& final(self)@ == old(self)@.with_slot(id, Some(t))
            } else {
                final(self)@ == old(self)@
            },
    {
        let mut task: Task = task;
        task.poll_ended(now, elapsed_ns, ready);
        match pool_get_mut(&mut self.task_pool, id) {
            Some(slot) => {
                *slot = Some(task);
                true
            },
            None => false,
        }
    }

    /// Task `id` has completed: its statistics are recorded and its slot is
    /// vacated.
    pub fn complete_task(&mut self, id: usize, retain: bool)
        requires
            old(self).wf(),
            old(self)@.tasks.contains_key(id),
        ensures
            final(self).wf(),
            final(self)@ == old(self)@.completed(id, retain),
    {
        let slot = pool_get_mut(&mut self.task_pool, id);
        self.stat.add_task_stat(slot, retain);
        let _ = pool_remove(&mut self.task_pool, id);
        assert(self@.tasks =~= old(self)@.completed(id, retain).tasks);
    }

    /// Statistics of the tasks whose name contains `name`: of the running ones
    /// by id, then of the finished ones.
    pub fn get_stats_by_name(&self, name: &str) -> (stats: Vec<TaskStat>)
        ensures
            exists|keys: Seq<usize>|
                {
                    &&& #[trigger] pool::ascending_keys(keys, self@.tasks)
                    &&& stats@ == running_matches(self@.tasks, keys, name@) + finished_matches(
                        self@.finished,
                        name@,
                    )
                },
    {
        let keys: Vec<usize> = pool_keys(&self.task_pool);
        let ghost slots = self@.tasks;
        let mut stats: Vec<TaskStat> = Vec::new();
        let mut i: usize = 0;
        assert(keys@.take(0) =~= Seq::<usize>::empty());
        while i < keys.len()
            invariant
                i <= keys@.len(),
                slots == self@.tasks,
                pool::ascending_keys(keys@, slots),
                stats@ == running_matches(slots, keys@.take(i as int), name@),
            decreases keys@.len() - i,
        {
            assert(keys@.take(i + 1).drop_last() =~= keys@.take(i as int));
            assert(keys@.contains(keys@[i as int]));
            match pool_get(&self.task_pool, keys[i]) {
                Some(Some(task)) => match &task.task_stat {
                    Some(stat) => if stat_name_contains(stat, name) {
                        stats.push(stat.copied());
                    },
                    None => {},
                },
                _ => {},
            }
            i += 1;
        }
        assert(keys@.take(keys@.len() as int) =~= keys@);
        let ghost running = stats@;
        let ghost all = self@.finished;
        let mut j: usize = 0;
        assert(all.take(0) =~= Seq::<TaskStat>::empty());
        assert(stats@ =~= running + finished_matches(all.take(0), name@));
        while j < self.stat.finished_task_stats.len()
            invariant
                j <= all.len(),
                all == self.stat.finished_task_stats@,
                stats@ == running + finished_matches(all.take(j as int), name@),
            decreases all.len() - j,
        {
            assert(all.take(j + 1).drop_last() =~= all.take(j as int));
            let stat = &self.stat.finished_task_stats[j];
            if stat_name_contains(stat, name) {
                let ghost before = finished_matches(all.take(j as int), name@);
                stats.push(stat.copied());
                assert(stats@ =~= running + before.push(*stat));
            }
            j += 1;
        }
        assert(all.take(all.len() as int) =~= all);
        stats
    }

    /// The execution time of the finished tasks whose name contains `name`.
    pub fn get_total_time(&self, name: &str) -> (t: u64)
        requires
            total_time(self@.finished, name@) <= u64::MAX,
        ensures
            t == total_time(self@.finished, name@),
    {
        self.checked_total_time(name).unwrap()
    }

    /// The execution time of the finished tasks whose name contains `name`, if
    /// it can be counted.
    pub fn checked_total_time(&self, name: &str) -> (t: Option<u64>)
        ensures
            match t {
                Some(t) => t == total_time(self@.finished, name@),
                None => total_time(self@.finished, name@) > u64::MAX,
            },
    {
        let ghost all = self@.finished;
        let mut total: u64 = 0;
        let mut i: usize = 0;
        assert(all.take(0) =~= Seq::<TaskStat>::empty());
        while i < self.stat.finished_task_stats.len()
            invariant
                i <= all.len(),
                all == self.stat.finished_task_stats@,
                total == total_time(all.take(i as int), name@),
            decreases all.len() - i,
        {
            assert(all.take(i + 1).drop_last() =~= all.take(i as int));
            proof {
                lemma_total_time_grows(all, name@, i + 1);
            }
            let stat = &self.stat.finished_task_stats[i];
            if stat_name_contains(stat, name) {
                match total.checked_add(stat.execute_time_ns) {
                    Some(sum) => {
                        total = sum;
                    },
                    None => {
                        return None;
                    },
                }
            }
            i += 1;
        }
        assert(all.take(all.len() as int) =~= all);
        Some(total)
    }

    /// Total time spent polling reactors in nanoseconds.
    pub fn get_reactor_polling_time(&self) -> (t: u64)
        ensures
            t == self@.polling_time,
    {
        self.stat.pool_and_completion_time
    }

    /// Statistics of the finished task that took the longest real time.
    pub fn get_longest_running_task(&self) -> (r: Option<TaskStat>)
        ensures
            match r {
                Some(stat) => exists|i: int|
                    #[trigger] longest_at(self@.finished, i) && self@.finished[i] == stat,
                None => forall|i: int|
                    0 <= i < self@.finished.len() ==> (#[trigger] self@.finished[i]).running,
            },
    {
        let ghost all = self@.finished;
        let mut best: Option<usize> = None;
        let mut best_time: u64 = 0;
        let mut i: usize = 0;
        while i < self.stat.finished_task_stats.len()
            invariant
                i <= all.len(),
                all == self.stat.finished_task_stats@,
                match best {
                    Some(b) => b < i && longest_at(all.take(i as int), b as int) && best_time
                        == real_time(all[b as int]),
                    None => forall|j: int| 0 <= j < i ==> (#[trigger] all[j]).running,
                },
            decreases all.len() - i,
        {
            let stat = &self.stat.finished_task_stats[i];
            let ghost shorter = all.take(i as int);
            let ghost longer = all.take(i + 1);
            assert(forall|j: int| 0 <= j < i ==> #[trigger] longer[j] == shorter[j]);
            if !stat.running {
                let time: u64 = match stat.get_elapsed_real_time() {
                    Some(d) => (d % 0x1_0000_0000_0000_0000) as u64,
                    None => 0,
                };
                let take: bool = match best {
                    Some(_) => time >= best_time,
                    None => true,
                };
                if take {
                    best = Some(i);
                    best_time = time;
                    assert(longer[i as int] == all[i as int]);
                    assert forall|j: int|
                        0 <= j < longer.len() && !(#[trigger] longer[j]).running implies real_time(
                        longer[j],
                    ) <= real_time(longer[i as int]) by {
                        if j < i {
                            assert(shorter[j] == all[j]);
                            assert(!shorter[j].running);
                        }
                    }
                    assert(longest_at(longer, i as int));
                } else {
                    let ghost b = best->0 as int;
                    assert forall|j: int|
                        0 <= j < longer.len() && !(#[trigger] longer[j]).running implies real_time(
                        longer[j],
                    ) <= real_time(longer[b]) && (j > b ==> real_time(longer[j]) < real_time(
                        longer[b],
                    )) by {
                        if j < i {
                            assert(!shorter[j].running);
                        }
                    }
                    assert(longest_at(longer, b));
                }
            } else {
                proof {
                    if best is Some {
                        let b = best->0 as int;
                        assert forall|j: int|
                            0 <= j < longer.len() && !(
                            #[trigger] longer[j]).running implies real_time(longer[j])
                            <= real_time(longer[b]) && (j > b ==> real_time(longer[j])
                            < real_time(longer[b])) by {
                            assert(j < i);
                            assert(!shorter[j].running);
                        }
                        assert(longest_at(longer, b));
                    }
                }
            }
            i += 1;
        }
        assert(all.take(all.len() as int) =~= all);
        match best {
            Some(b) => {
                assert(longest_at(all, b as int));
                Some(self.stat.finished_task_stats[b].copied())
            },
            None => None,
        }
    }
}

/// Whether the name of a task, empty if it has none, contains `name`.
fn stat_name_contains(stat: &TaskStat, name: &str) -> (r: bool)
    ensures
        r == text::occurs_in(name@, name_of(*stat)),
{
    proof {
        reveal_strlit("");
        assert(""@ =~= Seq::<char>::empty());
    }
    match &stat.task_name {
        Some(s) => text::contains_text(s.as_str(), name),
        None => text::contains_text("", name),
    }
}


/// A task that is queued goes behind everything on its own queue, and nothing
/// else changes.
pub proof fn queueing_appends_to_one_queue(rt: RuntimeView, kind: QueueKind, id: usize)
    ensures
        rt.queued(kind, id).queue(kind).queue == rt.queue(kind).queue.push(id),
        kind is Regular ==> rt.queue(kind) == rt.regular && rt.queued(kind, id).polling
            == rt.polling,
        kind is Polling ==> rt.queue(kind) == rt.polling && rt.queued(kind, id).regular
            == rt.regular,
        rt.queued(kind, id).tasks == rt.tasks,
        rt.queued(kind, id).reactors == rt.reactors,
        rt.queued(kind, id).finished == rt.finished,
        rt.queued(kind, id).polling_time == rt.polling_time,
{
}

/// A spawned task is the only change to the tasks: it comes under an id that was
/// vacant, has not run yet, and its id stands once, last, on the queue of its
/// kind, while the other queue stays as it was.
pub proof fn spawning_adds_one_task(
    before: RuntimeView,
    after: RuntimeView,
    id: usize,
    kind: QueueKind,
    task_name: Option<String>,
    other: usize,
)
    requires
        spawned(before, after, id, kind, task_name),
    ensures
        !before.tasks.contains_key(id),
        after.tasks.contains_key(id),
        after.pollable(id),
        after.tasks[id] matches Some(t) && {
            &&& t.queue == kind
            &&& t.task_stat matches Some(stat)
            &&& stat.running
            &&& stat.task_name == task_name
            &&& stat.execute_time_ns == 0
            &&& stat.start_time_ns is None
            &&& stat.end_time_ns is None
        },
        other != id ==> {
            &&& after.tasks.contains_key(other) == before.tasks.contains_key(other)
            &&& before.tasks.contains_key(other) ==> after.tasks[other] == before.tasks[other]
        },
        kind is Regular ==> after.regular.queue == before.regular.queue.push(id) && after.polling
            == before.polling,
        kind is Polling ==> after.polling.queue == before.polling.queue.push(id) && after.regular
            == before.regular,
        after.reactors == before.reactors,
        after.finished == before.finished,
        after.polling_time == before.polling_time,
{
}

/// A slot is filled or emptied without touching any other.
pub proof fn slots_are_apart(rt: RuntimeView, id: usize, slot: Option<Task>, other: usize)
    ensures
        rt.with_slot(id, slot).tasks.contains_key(id),
        rt.with_slot(id, slot).tasks[id] == slot,
        rt.with_slot(id, slot).pollable(id) <==> slot is Some,
        other != id ==> {
            &&& rt.with_slot(id, slot).pollable(other) == rt.pollable(other)
            &&& rt.with_slot(id, slot).tasks.contains_key(other) == rt.tasks.contains_key(other)
            &&& rt.with_slot(id, slot).tasks[other] == rt.tasks[other]
        },
        rt.pollable(id) <==> rt.tasks.contains_key(id) && rt.tasks[id] is Some,
        rt.with_slot(id, slot).regular == rt.regular,
        rt.with_slot(id, slot).polling == rt.polling,
        rt.with_slot(id, slot).reactors == rt.reactors,
        rt.with_slot(id, slot).finished == rt.finished,
        rt.with_slot(id, slot).polling_time == rt.polling_time,
{
}

/// A completed task is gone, and only it; its record is kept if and only if it
/// is asked for, marked as finished and with its times.
pub proof fn completion_removes_one_task(rt: RuntimeView, id: usize, retain: bool, other: usize)
    requires
        rt.tasks.contains_key(id),
    ensures
        ({
            let after = rt.completed(id, retain);
            &&& !after.tasks.contains_key(id)
            &&& other != id ==> {
                &&& after.tasks.contains_key(other) == rt.tasks.contains_key(other)
                &&& rt.tasks.contains_key(other) ==> after.tasks[other] == rt.tasks[other]
            }
            &&& !retain || rt.tasks[id] is None ==> after.finished == rt.finished
            &&& retain && rt.tasks[id] is Some ==> {
                let stat = rt.tasks[id]->0.task_stat->0;
                &&& after.finished.len() == rt.finished.len() + 1
                &&& after.finished.drop_last() == rt.finished
                &&& !after.finished.last().running
                &&& after.finished.last().task_name == stat.task_name
                &&& after.finished.last().execute_time_ns == stat.execute_time_ns
                &&& after.finished.last().start_time_ns == stat.start_time_ns
                &&& after.finished.last().end_time_ns == stat.end_time_ns
            }
            &&& after.regular == rt.regular
            &&& after.polling == rt.polling
            &&& after.reactors == rt.reactors
            &&& after.polling_time == rt.polling_time
        }),
{
    let after = rt.completed(id, retain);
    if retain && rt.tasks[id] is Some {
        assert(after.finished.drop_last() =~= rt.finished);
    }
}

/// A poll of a reactor counts for that reactor alone, by one, and for the time
/// spent, as long as both counts have room.
pub proof fn reactor_polls_are_counted(rt: RuntimeView, index: int, elapsed_ns: u64, other: int)
    ensures
        rt.counts_poll(index, elapsed_ns) <==> 0 <= index < rt.reactors.len()
            && rt.reactors[index].poll_counter < usize::MAX && rt.polling_time + elapsed_ns
            <= u64::MAX,
        rt.counts_poll(index, elapsed_ns) ==> {
            let after = rt.after_reactor_poll(index, elapsed_ns);
            &&& after.polling_time - rt.polling_time == elapsed_ns
            &&& after.reactors.len() == rt.reactors.len()
            &&& after.reactors[index].poll_counter == rt.reactors[index].poll_counter + 1
            &&& after.reactors[index].id == rt.reactors[index].id
            &&& after.reactors[index].enable == rt.reactors[index].enable
            &&& 0 <= other < rt.reactors.len() && other != index ==> after.reactors[other]
                == rt.reactors[other]
            &&& after.tasks == rt.tasks
            &&& after.regular == rt.regular
            &&& after.polling == rt.polling
            &&& after.finished == rt.finished
        },
{
}

/// Whether the name of a task, empty if it has none, contains `name`.
pub open spec fn named(stat: TaskStat, name: Seq<char>) -> bool {
    match stat.task_name {
        Some(s) => text::occurs_in(name, s@),
        None => text::occurs_in(name, Seq::empty()),
    }
}

/// The finished tasks that are found by name are all those with that name in
/// their own, in their order, and no others.
pub proof fn finished_matches_are_those_named(stats: Seq<TaskStat>, name: Seq<char>)
    ensures
        finished_matches(stats, name) == stats.filter(|s: TaskStat| named(s, name)),
    decreases stats.len(),
{
    reveal(Seq::filter);
    if stats.len() > 0 {
        finished_matches_are_those_named(stats.drop_last(), name);
    }
}

/// The running tasks that are found by name are those that are in their slots
/// with that name in their own, in the order of their ids, and no others.
pub proof fn running_matches_are_those_named(
    slots: Map<usize, Option<Task>>,
    keys: Seq<usize>,
    name: Seq<char>,
)
    ensures
        running_matches(slots, keys, name) == keys.filter(
            |k: usize|
                slots[k] is Some && slots[k]->0.task_stat is Some && named(
                    slots[k]->0.task_stat->0,
                    name,
                ),
        ).map_values(|k: usize| slots[k]->0.task_stat->0),
    decreases keys.len(),
{
    reveal(Seq::filter);
    let pick = |k: usize|
        slots[k] is Some && slots[k]->0.task_stat is Some && named(
            slots[k]->0.task_stat->0,
            name,
        );
    let stat = |k: usize| slots[k]->0.task_stat->0;
    if keys.len() == 0 {
        assert(keys.filter(pick).map_values(stat) =~= Seq::<TaskStat>::empty());
    } else {
        let front = keys.drop_last();
        running_matches_are_those_named(slots, front, name);
        if pick(keys.last()) {
            assert(keys.filter(pick).map_values(stat) =~= front.filter(pick).map_values(stat).push(
                stat(keys.last()),
            ));
        }
    }
}

/// The total time of a name is the sum of the execution times of the finished
/// tasks that are found by it.
pub proof fn total_time_adds_up(stats: Seq<TaskStat>, name: Seq<char>)
    ensures
        total_time(stats, name) == finished_matches(stats, name).fold_left(
            0int,
            |t: int, s: TaskStat| t + s.execute_time_ns,
        ),
    decreases stats.len(),
{
    let sum = |t: int, s: TaskStat| t + s.execute_time_ns;
    reveal_with_fuel(Seq::fold_left, 2);
    if stats.len() > 0 {
        total_time_adds_up(stats.drop_last(), name);
        let front = finished_matches(stats.drop_last(), name);
        assert(front.push(stats.last()).drop_last() =~= front);
    }
}

/// Tasks are compared by the real time from start to end, in nanoseconds as far
/// as 64 bits hold it; without both times it counts as none.
pub proof fn real_time_is_elapsed_time(stat: TaskStat)
    ensures
        stat.start_time_ns is None || stat.end_time_ns is None ==> real_time(stat) == 0,
        stat.start_time_ns is Some && stat.end_time_ns is Some && 0 <= stat.end_time_ns->0
            - stat.start_time_ns->0 <= u64::MAX ==> stat.start_time_ns->0 + real_time(stat)
            == stat.end_time_ns->0,
        0 <= real_time(stat) <= u64::MAX,
{
}

/// The longest of the finished tasks is one of them, none took longer, and of
/// several it is the last: there is but one.
pub proof fn longest_is_a_maximum(stats: Seq<TaskStat>, i: int, j: int)
    requires
        longest_at(stats, i),
    ensures
        0 <= i < stats.len(),
        !stats[i].running,
        0 <= j < stats.len() && !stats[j].running ==> real_time(stats[j]) <= real_time(stats[i]),
        i < j < stats.len() && !stats[j].running ==> real_time(stats[j]) < real_time(stats[i]),
        longest_at(stats, j) ==> j == i,
{
}

} // verus!
