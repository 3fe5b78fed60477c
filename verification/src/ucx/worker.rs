//! The state of a worker: whether it communicates, waits for connections, or
//! neither. The reactor's counter follows every transition.

use crate::text;
use crate::ucx::reactor::UCXReactor;
use vstd::prelude::*;

verus! {

/// What a worker is doing.
#[derive(Debug, Clone, Copy, PartialEq, Eq, Structural)]
pub enum WorkerState {
    /// An operation is in progress.
    Active,
    /// Listeners or streams wait for peers.
    WaitConnect,
    /// Nothing.
    Inactive,
}

/// What an operation on a worker or one of its endpoints does to its state.
#[derive(Debug, Clone, Copy, PartialEq, Eq, Structural)]
pub enum Operation {
    /// A one-sided, stream or tagged transfer, or setting up a connection: the
    /// worker is active until it has ended.
    Transfer,
    /// Sending an active message: the worker stays active, because the message
    /// may still be on its way when the call returns.
    ActiveMessage,
    /// Waiting for an active message.
    AwaitMessage,
    /// Creating an endpoint to an address, flushing or closing one: the state
    /// stays.
    Passive,
}

/// Whether a worker in this state counts for the reactor.
pub open spec fn counts(state: WorkerState) -> bool {
    state != WorkerState::Inactive
}

/// The reactor's counter after a worker went from one state to another.
pub open spec fn count_after(active: usize, from: WorkerState, to: WorkerState) -> usize {
    if !counts(from) && counts(to) {
        if active == usize::MAX {
            0
        } else {
            (active + 1) as usize
        }
    } else if counts(from) && !counts(to) {
        if active == 0 {
            usize::MAX
        } else {
            (active - 1) as usize
        }
    } else {
        active
    }
}

/// A worker: its id with the reactor, its state, the ids of its listeners and
/// streams, and since when it waits.
#[derive(Debug)]
pub struct Worker {
    id: usize,
    state: WorkerState,
    listener_ids: Vec<String>,
    wait_connect_start: Option<u128>,
}

/// The state of a worker.
#[verifier::ext_equal]
pub struct WorkerView {
    pub id: usize,
    pub state: WorkerState,
    pub listeners: Set<Seq<char>>,
    pub waiting_since: Option<u128>,
}

/// The texts of a list.
pub open spec fn texts_of(list: Seq<String>) -> Set<Seq<char>> {
    Set::new(|t: Seq<char>| exists|i: int| 0 <= i < list.len() && (#[trigger] list[i])@ == t)
}

impl View for Worker {
    type V = WorkerView;

    closed spec fn view(&self) -> WorkerView {
        WorkerView {
            id: self.id,
            state: self.state,
            listeners: texts_of(self.listener_ids@),
            waiting_since: self.wait_connect_start,
        }
    }
}

impl WorkerView {
    /// The worker after `activate`.
    pub open spec fn activated(self) -> WorkerView {
        WorkerView { state: WorkerState::Active, waiting_since: None, ..self }
    }

    /// The worker after `wait_connect`.
    pub open spec fn waiting(self, now: u128) -> WorkerView {
        WorkerView { state: WorkerState::WaitConnect, waiting_since: Some(now), ..self }
    }

    /// The worker after `deactivate`: it goes on waiting as long as it has a
    /// listener or stream.
    pub open spec fn deactivated(self, now: u128) -> WorkerView {
        if self.listeners == Set::<Seq<char>>::empty() {
            WorkerView { state: WorkerState::Inactive, waiting_since: None, ..self }
        } else {
            self.waiting(now)
        }
    }

    /// The worker while an operation that began at `now` is under way.
    pub open spec fn during(self, op: Operation, now: u128) -> WorkerView {
        match op {
            Operation::Transfer => self.activated(),
            Operation::ActiveMessage => self.activated(),
            Operation::AwaitMessage => self.waiting(now),
            Operation::Passive => self,
        }
    }

    /// The worker once an operation has ended at `now`.
    pub open spec fn after(self, op: Operation, now: u128) -> WorkerView {
        match op {
            Operation::Transfer => self.deactivated(now),
            Operation::ActiveMessage => self,
            Operation::AwaitMessage => self.deactivated(now),
            Operation::Passive => self,
        }
    }

    /// The worker with a listener or stream of this id.
    pub open spec fn with_listener(self, id: Seq<char>) -> WorkerView {
        WorkerView { listeners: self.listeners.insert(id), ..self }
    }

    /// The worker without the listener or stream of this id.
    pub open spec fn without_listener(self, id: Seq<char>) -> WorkerView {
        WorkerView { listeners: self.listeners.remove(id), ..self }
    }
}

impl Worker {
    /// No listener or stream is listed twice.
    pub closed spec fn wf(&self) -> bool {
        forall|i: int, j: int|
            0 <= i < j < self.listener_ids@.len() ==> (#[trigger] self.listener_ids@[i])@ != (
            #[trigger] self.listener_ids@[j])@
    }

    /// An inactive worker, registered with the reactor as `handle`.
    pub fn new(reactor: &mut UCXReactor, handle: u64) -> (w: Worker)
        ensures
            w.wf(),
            w@.state == WorkerState::Inactive,
            w@.listeners == Set::<Seq<char>>::empty(),
            w@.waiting_since is None,
            !old(reactor)@.workers.contains_key(w@.id),
            final(reactor)@ == (crate::ucx::reactor::ReactorView {
                workers: old(reactor)@.workers.insert(w@.id, handle),
                ..old(reactor)@
            }),
    {
        let id: usize = reactor.register_worker(handle);
        let w = Worker {
            id,
            state: WorkerState::Inactive,
            listener_ids: Vec::new(),
            wait_connect_start: None,
        };
        assert(w@.listeners =~= Set::<Seq<char>>::empty());
        w
    }

    /// The worker's id with the reactor.
    pub fn id(&self) -> (id: usize)
        ensures
            id == self@.id,
    {
        self.id
    }

    /// What the worker is doing.
    pub fn state(&self) -> (s: WorkerState)
        ensures
            s == self@.state,
    {
        self.state
    }

    /// Since when the worker waits.
    pub fn wait_start_time(&self) -> (t: Option<u128>)
        ensures
            t == self@.waiting_since,
    {
        self.wait_connect_start
    }

    /// Go to `to`, and let the reactor's counter follow.
    fn set_state(&mut self, reactor: &mut UCXReactor, to: WorkerState)
        ensures
            final(self).listener_ids == old(self).listener_ids,
            final(self).wait_connect_start == old(self).wait_connect_start,
            final(self).id == old(self).id,
            final(self).state == to,
            final(reactor)@ == (crate::ucx::reactor::ReactorView {
                active: count_after(old(reactor)@.active, old(self).state, to),
                ..old(reactor)@
            }),
    {
        let counted: bool = self.state != WorkerState::Inactive;
        let counts_now: bool = to != WorkerState::Inactive;
        if !counted && counts_now {
            reactor.increment_active_count();
        } else if counted && !counts_now {
            reactor.decrement_active_count();
        }
        self.state = to;
    }

    /// An operation begins.
    pub fn activate(&mut self, reactor: &mut UCXReactor)
        requires
            old(self).wf(),
        ensures
            final(self).wf(),
            final(self)@ == old(self)@.activated(),
            final(reactor)@ == (crate::ucx::reactor::ReactorView {
                active: count_after(
                    old(reactor)@.active,
                    old(self)@.state,
                    final(self)@.state,
                ),
                ..old(reactor)@
            }),
    {
        self.set_state(reactor, WorkerState::Active);
        self.wait_connect_start = None;
    }

    /// An operation has ended: the worker is inactive, unless it has listeners
    /// or streams, which go on waiting.
    pub fn deactivate(&mut self, reactor: &mut UCXReactor, now: u128)
        requires
            old(self).wf(),
        ensures
            final(self).wf(),
            final(self)@ == old(self)@.deactivated(now),
            final(reactor)@ == (crate::ucx::reactor::ReactorView {
                active: count_after(
                    old(reactor)@.active,
                    old(self)@.state,
                    final(self)@.state,
                ),
                ..old(reactor)@
            }),
    {
        if self.listener_ids.len() == 0 {
            assert(self@.listeners =~= Set::<Seq<char>>::empty());
            self.set_state(reactor, WorkerState::Inactive);
            self.wait_connect_start = None;
        } else {
            assert(self@.listeners.contains(self.listener_ids@[0]@));
            self.set_state(reactor, WorkerState::WaitConnect);
            self.wait_connect_start = Some(now);
        }
    }

    /// Wait for peers.
    pub fn wait_connect(&mut self, reactor: &mut UCXReactor, now: u128)
        requires
            old(self).wf(),
        ensures
            final(self).wf(),
            final(self)@ == old(self)@.waiting(now),
            final(reactor)@ == (crate::ucx::reactor::ReactorView {
                active: count_after(
                    old(reactor)@.active,
                    old(self)@.state,
                    final(self)@.state,
                ),
                ..old(reactor)@
            }),
    {
        self.set_state(reactor, WorkerState::WaitConnect);
        self.wait_connect_start = Some(now);
    }

    /// An operation begins.
    pub fn begin(&mut self, reactor: &mut UCXReactor, op: Operation, now: u128)
        requires
            old(self).wf(),
        ensures
            final(self).wf(),
            final(self)@ == old(self)@.during(op, now),
            final(reactor)@ == (crate::ucx::reactor::ReactorView {
                active: count_after(
                    old(reactor)@.active,
                    old(self)@.state,
                    final(self)@.state,
                ),
                ..old(reactor)@
            }),
    {
        match op {
            Operation::Transfer => self.activate(reactor),
            Operation::ActiveMessage => self.activate(reactor),
            Operation::AwaitMessage => self.wait_connect(reactor, now),
            Operation::Passive => {},
        }
    }

    /// An operation has ended.
    pub fn end(&mut self, reactor: &mut UCXReactor, op: Operation, now: u128)
        requires
            old(self).wf(),
        ensures
            final(self).wf(),
            final(self)@ == old(self)@.after(op, now),
            final(reactor)@ == (crate::ucx::reactor::ReactorView {
                active: count_after(
                    old(reactor)@.active,
                    old(self)@.state,
                    final(self)@.state,
                ),
                ..old(reactor)@
            }),
    {
        match op {
            Operation::Transfer => self.deactivate(reactor, now),
            Operation::ActiveMessage => {},
            Operation::AwaitMessage => self.deactivate(reactor, now),
            Operation::Passive => {},
        }
    }

    /// Where a listener of this id is listed.
    fn find_listener(&self, id: &String) -> (r: Option<usize>)
        ensures
            match r {
                Some(i) => i < self.listener_ids@.len() && self.listener_ids@[i as int]@ == id@,
                None => forall|j: int|
                    0 <= j < self.listener_ids@.len() ==> (#[trigger] self.listener_ids@[j])@
                        != id@,
            },
    {
        let mut i: usize = 0;
        while i < self.listener_ids.len()
            invariant
                i <= self.listener_ids@.len(),
                forall|j: int| 0 <= j < i ==> (#[trigger] self.listener_ids@[j])@ != id@,
            decreases self.listener_ids@.len() - i,
        {
            if self.listener_ids[i] == *id {
                return Some(i);
            }
            i += 1;
        }
        None
    }

    /// List a listener or stream.
    fn add_listener(&mut self, id: String)
        requires
            old(self).wf(),
        ensures
            final(self).wf(),
            final(self)@ == old(self)@.with_listener(id@),
    {
        let ghost before = self.listener_ids@;
        match self.find_listener(&id) {
            Some(i) => {
                assert(texts_of(before).contains(before[i as int]@));
                assert(texts_of(before) =~= texts_of(before).insert(id@));
            },
            None => {
                self.listener_ids.push(id);
                let ghost after = self.listener_ids@;
                assert(texts_of(after) =~= texts_of(before).insert(id@)) by {
                    assert forall|t: Seq<char>| texts_of(after).contains(t) <==> texts_of(
                        before,
                    ).insert(id@).contains(t) by {
                        if texts_of(before).contains(t) {
                            let i = choose|i: int|
                                0 <= i < before.len() && (#[trigger] before[i])@ == t;
                            assert(after[i]@ == t);
                        }
                        if t == id@ {
                            assert(after[before.len() as int]@ == t);
                        }
                        if texts_of(after).contains(t) && t != id@ {
                            let i = choose|i: int|
                                0 <= i < after.len() && (#[trigger] after[i])@ == t;
                            assert(before[i]@ == t);
                        }
                    }
                }
            },
        }
    }

    /// Strike a listener or stream off the list.
    fn drop_listener(&mut self, id: &String)
        requires
            old(self).wf(),
        ensures
            final(self).wf(),
            final(self)@ == old(self)@.without_listener(id@),
    {
        let ghost before = self.listener_ids@;
        match self.find_listener(id) {
            None => {
                assert(texts_of(before) =~= texts_of(before).remove(id@));
            },
            Some(i) => {
                let _ = self.listener_ids.remove(i);
                let ghost after = self.listener_ids@;
                assert(after =~= before.remove(i as int));
                assert(texts_of(after) =~= texts_of(before).remove(id@)) by {
                    assert forall|t: Seq<char>| texts_of(after).contains(t) <==> texts_of(
                        before,
                    ).remove(id@).contains(t) by {
                        if texts_of(after).contains(t) {
                            let j = choose|j: int|
                                0 <= j < after.len() && (#[trigger] after[j])@ == t;
                            let j0 = if j < i {
                                j
                            } else {
                                j + 1
                            };
                            assert(before[j0]@ == t);
                            if j0 < i {
                                assert(before[j0]@ != before[i as int]@);
                            } else {
                                assert(before[i as int]@ != before[j0]@);
                            }
                        }
                        if texts_of(before).remove(id@).contains(t) {
                            let j = choose|j: int|
                                0 <= j < before.len() && (#[trigger] before[j])@ == t;
                            assert(j != i);
                            let j1 = if j < i {
                                j
                            } else {
                                j - 1
                            };
                            assert(after[j1]@ == t);
                        }
                    }
                }
                assert(self.wf()) by {
                    assert forall|a: int, b: int| 0 <= a < b < after.len() implies (
                    #[trigger] after[a])@ != (#[trigger] after[b])@ by {
                        let a0 = if a < i {
                            a
                        } else {
                            a + 1
                        };
                        let b0 = if b < i {
                            b
                        } else {
                            b + 1
                        };
                        assert(before[a0]@ != before[b0]@);
                    }
                }
            },
        }
    }

    /// A listener at `addr` was created: an inactive worker now waits.
    pub fn listener_created(&mut self, reactor: &mut UCXReactor, addr: String, now: u128)
        requires
            old(self).wf(),
        ensures
            final(self).wf(),
            final(self)@ == (if old(self)@.state == WorkerState::Inactive {
                old(self)@.waiting(now)
            } else {
                old(self)@
            }).with_listener(addr@),
            final(reactor)@ == (crate::ucx::reactor::ReactorView {
                active: count_after(
                    old(reactor)@.active,
                    old(self)@.state,
                    final(self)@.state,
                ),
                ..old(reactor)@
            }),
    {
        if self.state == WorkerState::Inactive {
            self.wait_connect(reactor, now);
        }
        self.add_listener(addr);
    }

    /// A listener at `addr` was dropped.
    pub fn listener_dropped(&mut self, reactor: &mut UCXReactor, addr: &String, now: u128)
        requires
            old(self).wf(),
        ensures
            final(self).wf(),
            final(self)@ == old(self)@.without_listener(addr@).deactivated(now),
            final(reactor)@ == (crate::ucx::reactor::ReactorView {
                active: count_after(
                    old(reactor)@.active,
                    old(self)@.state,
                    final(self)@.state,
                ),
                ..old(reactor)@
            }),
    {
        self.drop_listener(addr);
        self.deactivate(reactor, now);
    }

    /// An active-message stream of this id was opened.
    pub fn am_stream(&mut self, id: u16)
        requires
            old(self).wf(),
        ensures
            final(self).wf(),
            final(self)@ == old(self)@.with_listener(text::decimal(id as nat)),
    {
        let mut name = String::new();
        text::push_decimal(&mut name, id as u64);
        assert(name@ =~= text::decimal(id as nat));
        self.add_listener(name);
    }

    /// The active-message stream of this id was dropped.
    pub fn am_stream_dropped(&mut self, reactor: &mut UCXReactor, id: u16, now: u128)
        requires
            old(self).wf(),
        ensures
            final(self).wf(),
            final(self)@ == old(self)@.without_listener(text::decimal(id as nat)).deactivated(
                now,
            ),
            final(reactor)@ == (crate::ucx::reactor::ReactorView {
                active: count_after(
                    old(reactor)@.active,
                    old(self)@.state,
                    final(self)@.state,
                ),
                ..old(reactor)@
            }),
    {
        let mut name = String::new();
        text::push_decimal(&mut name, id as u64);
        assert(name@ =~= text::decimal(id as nat));
        self.drop_listener(&name);
        self.deactivate(reactor, now);
    }
}

/// The reactor runs while an operation is under way, and a worker that has
/// listeners or streams never goes inactive by ending one.
pub proof fn operations_keep_the_reactor_running(w: WorkerView, op: Operation, now: u128, end: u128)
    requires
        op != Operation::Passive,
    ensures
        counts(w.during(op, now).state),
        w.listeners != Set::<Seq<char>>::empty() ==> counts(
            w.during(op, now).after(op, end).state,
        ),
        op == Operation::ActiveMessage ==> w.during(op, now).after(op, end).state
            == WorkerState::Active,
        op != Operation::ActiveMessage && w.listeners == Set::<Seq<char>>::empty() ==> w.during(
            op,
            now,
        ).after(op, end).state == WorkerState::Inactive,
{
}

/// How many of these workers count for the reactor.
pub open spec fn counting(states: Seq<WorkerState>) -> nat
    decreases states.len(),
{
    if states.len() == 0 {
        0
    } else {
        counting(states.drop_last()) + if counts(states.last()) {
            1nat
        } else {
            0nat
        }
    }
}

/// The reactor's counter is the number of workers that are active or waiting:
/// if it was before a worker's transition, it is afterwards. So the reactor
/// runs exactly as long as there is such a worker.
pub proof fn counter_follows_workers(states: Seq<WorkerState>, active: usize, i: int, to: WorkerState)
    requires
        0 <= i < states.len() <= usize::MAX,
        active == counting(states),
    ensures
        count_after(active, states[i], to) == counting(states.update(i, to)),
        counting(states) > 0 <==> exists|j: int|
            0 <= j < states.len() && counts(#[trigger] states[j]),
{
    lemma_counting_update(states, i, to);
    lemma_counting_bounds(states.update(i, to));
    lemma_counting_bounds(states);
}

/// One worker's transition changes the count by that worker alone.
proof fn lemma_counting_update(states: Seq<WorkerState>, i: int, to: WorkerState)
    requires
        0 <= i < states.len(),
    ensures
        counting(states.update(i, to)) == counting(states) - (if counts(states[i]) {
            1int
        } else {
            0int
        }) + (if counts(to) {
            1int
        } else {
            0int
        }),
    decreases states.len(),
{
    let updated = states.update(i, to);
    if i == states.len() - 1 {
        assert(updated.drop_last() =~= states.drop_last());
    } else {
        assert(updated.drop_last() =~= states.drop_last().update(i, to));
        lemma_counting_update(states.drop_last(), i, to);
    }
}

/// The count lies between 0 and the number of workers, and is 0 only if none
/// counts.
proof fn lemma_counting_bounds(states: Seq<WorkerState>)
    ensures
        counting(states) <= states.len(),
        counting(states) > 0 <==> exists|j: int|
            0 <= j < states.len() && counts(#[trigger] states[j]),
    decreases states.len(),
{
    if states.len() > 0 {
        let front = states.drop_last();
        lemma_counting_bounds(front);
        if counts(states.last()) {
            assert(counts(states[states.len() - 1]));
        } else {
            if exists|j: int| 0 <= j < front.len() && counts(#[trigger] front[j]) {
                let j = choose|j: int| 0 <= j < front.len() && counts(#[trigger] front[j]);
                assert(counts(states[j]));
            }
            if exists|j: int| 0 <= j < states.len() && counts(#[trigger] states[j]) {
                let j = choose|j: int| 0 <= j < states.len() && counts(#[trigger] states[j]);
                assert(counts(front[j]));
            }
        }
    }
}


/// A worker counts for the reactor while it is active or waits, and the number
/// of those that do is the number of workers that are not inactive.
pub proof fn active_and_waiting_workers_count(states: Seq<WorkerState>)
    ensures
        counts(WorkerState::Active),
        counts(WorkerState::WaitConnect),
        !counts(WorkerState::Inactive),
        counting(states) == states.filter(|s: WorkerState| s !is Inactive).len(),
    decreases states.len(),
{
    reveal(Seq::filter);
    if states.len() > 0 {
        active_and_waiting_workers_count(states.drop_last());
    }
}

/// The counter goes up by one with a worker that begins to count, down by one
/// with one that ceases to, and stays otherwise; at its limits it wraps around.
pub proof fn counter_moves_by_one(active: usize, from: WorkerState, to: WorkerState)
    ensures
        from is Inactive && to !is Inactive ==> count_after(active, from, to) == if active
            < usize::MAX {
            active + 1
        } else {
            0
        },
        from !is Inactive && to is Inactive ==> count_after(active, from, to) == if active > 0 {
            active - 1
        } else {
            usize::MAX as int
        },
        (from is Inactive) == (to is Inactive) ==> count_after(active, from, to) == active,
{
}

/// What each transition sets, and that it leaves the rest: an active worker
/// waits for nothing; a waiting one waits since now; one that ends an operation
/// waits if it has a listener or stream, and else does nothing.
pub proof fn transitions_set_state_and_time(w: WorkerView, now: u128)
    ensures
        w.activated().state is Active,
        w.activated().waiting_since is None,
        w.activated().listeners == w.listeners,
        w.activated().id == w.id,
        w.waiting(now).state is WaitConnect,
        w.waiting(now).waiting_since == Some(now),
        w.waiting(now).listeners == w.listeners,
        w.waiting(now).id == w.id,
        w.deactivated(now).listeners == w.listeners,
        w.deactivated(now).id == w.id,
        (forall|t: Seq<char>| !w.listeners.contains(t)) ==> w.deactivated(now).state is Inactive
            && w.deactivated(now).waiting_since is None,
        (exists|t: Seq<char>| w.listeners.contains(t)) ==> w.deactivated(now).state is WaitConnect
            && w.deactivated(now).waiting_since == Some(now),
{
    if forall|t: Seq<char>| !w.listeners.contains(t) {
        assert(w.listeners =~= Set::<Seq<char>>::empty());
    }
}

/// What the operations do: a transfer makes the worker active and then lets it
/// rest; an active message makes it active for good; waiting for a message
/// makes it wait and then lets it rest; the others leave it alone.
pub proof fn operations_begin_and_end(w: WorkerView, now: u128)
    ensures
        w.during(Operation::Transfer, now).state is Active,
        w.during(Operation::Transfer, now).waiting_since is None,
        w.during(Operation::ActiveMessage, now).state is Active,
        w.during(Operation::ActiveMessage, now).waiting_since is None,
        w.during(Operation::AwaitMessage, now).state is WaitConnect,
        w.during(Operation::AwaitMessage, now).waiting_since == Some(now),
        w.during(Operation::Passive, now) == w,
        w.after(Operation::ActiveMessage, now) == w,
        w.after(Operation::Passive, now) == w,
        w.after(Operation::AwaitMessage, now) == w.after(Operation::Transfer, now),
        (forall|t: Seq<char>| !w.listeners.contains(t)) ==> {
            &&& w.after(Operation::Transfer, now).state is Inactive
            &&& w.after(Operation::Transfer, now).waiting_since is None
        },
        (exists|t: Seq<char>| w.listeners.contains(t)) ==> {
            &&& w.after(Operation::Transfer, now).state is WaitConnect
            &&& w.after(Operation::Transfer, now).waiting_since == Some(now)
        },
{
    transitions_set_state_and_time(w, now);
}

/// Listeners and streams come and go by their ids, each without touching the
/// others or the state.
pub proof fn listeners_come_and_go(w: WorkerView, id: Seq<char>, other: Seq<char>)
    ensures
        w.with_listener(id).listeners.contains(id),
        !w.without_listener(id).listeners.contains(id),
        other != id ==> {
            &&& w.with_listener(id).listeners.contains(other) == w.listeners.contains(other)
            &&& w.without_listener(id).listeners.contains(other) == w.listeners.contains(other)
        },
        w.with_listener(id).state == w.state,
        w.with_listener(id).id == w.id,
        w.with_listener(id).waiting_since == w.waiting_since,
        w.without_listener(id).state == w.state,
        w.without_listener(id).id == w.id,
        w.without_listener(id).waiting_since == w.waiting_since,
{
}

/// The texts of a list are those of its entries and no others.
pub proof fn texts_are_those_listed(list: Seq<String>, i: int, t: Seq<char>)
    ensures
        0 <= i < list.len() ==> texts_of(list).contains(list[i]@),
        texts_of(list).contains(t) ==> exists|j: int|
            0 <= j < list.len() && (#[trigger] list[j])@ == t,
{
}

} // verus!
