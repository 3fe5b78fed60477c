//! Timers: a reactor that wakes tasks at their deadlines, and the delay that
//! waits for one.
//!
//! Instants are nanoseconds since a point that the caller fixes once. A timer
//! is not guaranteed to fire at exactly its deadline, only not before it.

use crate::runtime::reactor::ReactorStatus;
use crate::runtime::task::Poll;
use vstd::prelude::*;

verus! {

/// Identifies a timer: its deadline and a number that tells timers of one
/// deadline apart. Handles are ordered by deadline, then by number.
#[derive(Debug, Clone, Copy, PartialEq, Eq, PartialOrd, Ord, Hash, Structural)]
pub struct TimerHandle {
    deadline: u128,
    id: u64,
}

/// Source of timer numbers.
#[derive(Debug)]
pub struct TimerIds {
    next: u64,
}

impl TimerIds {
    /// The number that comes next.
    pub closed spec fn upcoming(&self) -> u64 {
        self.next
    }

    /// No number handed out.
    pub fn new() -> (ids: TimerIds)
        ensures
            ids.upcoming() == 1,
    {
        TimerIds { next: 1 }
    }

    /// Hand out a number.
    fn take(&mut self) -> (id: u64)
        ensures
            id == old(self).upcoming(),
            final(self).upcoming() == next_id(old(self).upcoming()),
    {
        let id: u64 = self.next;
        self.next = if id == u64::MAX {
            0
        } else {
            id + 1
        };
        id
    }
}

/// The number after `id`.
pub open spec fn next_id(id: u64) -> u64 {
    if id == u64::MAX {
        0
    } else {
        (id + 1) as u64
    }
}

impl TimerHandle {
    pub closed spec fn deadline_view(self) -> u128 {
        self.deadline
    }

    pub closed spec fn id_view(self) -> u64 {
        self.id
    }

    /// This handle comes before `other`.
    pub open spec fn before(self, other: TimerHandle) -> bool {
        self.deadline_view() < other.deadline_view() || (self.deadline_view()
            == other.deadline_view() && self.id_view() < other.id_view())
    }

    /// A handle for a timer with this deadline.
    pub fn new(ids: &mut TimerIds, deadline: u128) -> (h: TimerHandle)
        ensures
            h.deadline_view() == deadline,
            h.id_view() == old(ids).upcoming(),
            final(ids).upcoming() == next_id(old(ids).upcoming()),
    {
        TimerHandle { deadline, id: ids.take() }
    }

    /// The deadline of the timer.
    pub fn deadline(&self) -> (d: u128)
        ensures
            d == self.deadline_view(),
    {
        self.deadline
    }

    /// Whether this handle comes before `other`.
    fn comes_before(&self, other: &TimerHandle) -> (r: bool)
        ensures
            r == self.before(*other),
    {
        self.deadline < other.deadline || (self.deadline == other.deadline && self.id < other.id)
    }
}

/// Handles with the same deadline and number are the same, and any two
/// different ones are ordered.
pub proof fn handles_are_ordered(a: TimerHandle, b: TimerHandle)
    ensures
        a.deadline_view() == b.deadline_view() && a.id_view() == b.id_view() ==> a == b,
        a.before(b) || b.before(a) || a == b,
        !(a.before(b) && b.before(a)),
{
}

/// Every timer comes before the next one; in particular no handle occurs twice.
pub open spec fn in_order<W>(timers: Seq<(TimerHandle, W)>) -> bool {
    forall|i: int, j: int|
        0 <= i < j < timers.len() ==> (#[trigger] timers[i]).0.before((#[trigger] timers[j]).0)
}

/// `i` is where `handle` is or belongs: everything before it comes before
/// `handle`, and nothing from it on does.
pub open spec fn place_of<W>(timers: Seq<(TimerHandle, W)>, handle: TimerHandle, i: int) -> bool {
    &&& 0 <= i <= timers.len()
    &&& forall|j: int| 0 <= j < i ==> (#[trigger] timers[j]).0.before(handle)
    &&& forall|j: int| i <= j < timers.len() ==> !(#[trigger] timers[j]).0.before(handle)
}

/// The timers with `handle` registered at its place.
pub open spec fn with_timer<W>(
    timers: Seq<(TimerHandle, W)>,
    handle: TimerHandle,
    waker: W,
    i: int,
) -> Seq<(TimerHandle, W)> {
    if i < timers.len() && timers[i].0 == handle {
        timers.update(i, (handle, waker))
    } else {
        timers.insert(i, (handle, waker))
    }
}

/// A timer of this handle is pending.
pub open spec fn is_pending<W>(timers: Seq<(TimerHandle, W)>, handle: TimerHandle) -> bool {
    exists|i: int| 0 <= i < timers.len() && (#[trigger] timers[i]).0 == handle
}

/// The numbers of all timers lie below `next`.
pub open spec fn numbered_below<W>(timers: Seq<(TimerHandle, W)>, next: u64) -> bool {
    forall|i: int| 0 <= i < timers.len() ==> (#[trigger] timers[i]).0.id_view() < next
}

/// How many timers, from the first on, have a deadline that is not after
/// `now`.
pub open spec fn expired_count<W>(timers: Seq<(TimerHandle, W)>, now: u128) -> nat
    decreases timers.len(),
{
    if timers.len() == 0 || timers[0].0.deadline_view() > now {
        0
    } else {
        1 + expired_count(timers.skip(1), now)
    }
}

/// Where the expired timers end.
proof fn lemma_expired_count<W>(timers: Seq<(TimerHandle, W)>, now: u128, k: int)
    requires
        0 <= k <= timers.len(),
        forall|j: int| 0 <= j < k ==> (#[trigger] timers[j]).0.deadline_view() <= now,
        k < timers.len() ==> timers[k].0.deadline_view() > now,
    ensures
        expired_count(timers, now) == k,
    decreases timers.len(),
{
    if k > 0 {
        let rest = timers.skip(1);
        assert forall|j: int| 0 <= j < k - 1 implies (#[trigger] rest[j]).0.deadline_view()
            <= now by {
            assert(rest[j] == timers[j + 1]);
        }
        lemma_expired_count(rest, now, k - 1);
    }
}

/// A poll fires exactly the timers whose deadline has come: none fires before
/// its deadline, and none that is due is left.
pub proof fn timers_fire_exactly_when_due<W>(timers: Seq<(TimerHandle, W)>, now: u128)
    requires
        in_order(timers),
    ensures
        expired_count(timers, now) <= timers.len(),
        forall|i: int|
            0 <= i < timers.len() ==> ((#[trigger] timers[i]).0.deadline_view() <= now <==> i
                < expired_count(timers, now)),
    decreases timers.len(),
{
    if timers.len() > 0 && timers[0].0.deadline_view() <= now {
        let rest = timers.skip(1);
        assert(in_order(rest)) by {
            assert forall|i: int, j: int| 0 <= i < j < rest.len() implies (
            #[trigger] rest[i]).0.before((#[trigger] rest[j]).0) by {
                assert(rest[i] == timers[i + 1] && rest[j] == timers[j + 1]);
            }
        }
        timers_fire_exactly_when_due(rest, now);
        assert forall|i: int| 0 <= i < timers.len() implies ((
        #[trigger] timers[i]).0.deadline_view() <= now <==> i < expired_count(timers, now)) by {
            if i > 0 {
                assert(timers[i] == rest[i - 1]);
            }
        }
    } else if timers.len() > 0 {
        assert forall|i: int| 0 <= i < timers.len() implies (
        #[trigger] timers[i]).0.deadline_view() > now by {
            if i > 0 {
                assert(timers[0].0.before(timers[i].0));
            }
        }
    }
}

/// Later polls fire later deadlines: what a poll fires is due no later than
/// what it leaves.
pub proof fn timers_fire_in_order<W>(timers: Seq<(TimerHandle, W)>, now: u128, i: int, j: int)
    requires
        in_order(timers),
        0 <= i < expired_count(timers, now) <= j < timers.len(),
    ensures
        timers[i].0.deadline_view() <= timers[j].0.deadline_view(),
{
    assert(timers[i].0.before(timers[j].0));
}

/// A pending timer and the waker of its task.
#[derive(Debug)]
pub struct TimerEntry<W> {
    handle: TimerHandle,
    waker: W,
}

/// The plain content of a list of entries.
pub closed spec fn entries_view<W>(entries: Seq<TimerEntry<W>>) -> Seq<(TimerHandle, W)> {
    Seq::new(entries.len(), |i: int| (entries[i].handle, entries[i].waker))
}

/// Timer reactor: keeps the pending timers in order of their deadlines and
/// wakes the tasks of those that have expired.
#[derive(Debug)]
pub struct TimerReactor<W> {
    timers: Vec<TimerEntry<W>>,
}

impl<W> View for TimerReactor<W> {
    type V = Seq<(TimerHandle, W)>;

    closed spec fn view(&self) -> Seq<(TimerHandle, W)> {
        entries_view(self.timers@)
    }
}

impl<W> Default for TimerReactor<W> {
    fn default() -> (r: Self)
        ensures
            r.wf(),
            r@.len() == 0,
    {
        TimerReactor { timers: Vec::new() }
    }
}

impl<W> TimerReactor<W> {
    /// The timers are in order.
    pub open spec fn wf(&self) -> bool {
        in_order(self@)
    }

    /// A reactor without timers.
    pub fn new() -> (r: Self)
        ensures
            r.wf(),
            r@.len() == 0,
    {
        Self::default()
    }

    /// Where `handle` is or belongs.
    fn find(&self, handle: &TimerHandle) -> (i: usize)
        requires
            self.wf(),
        ensures
            place_of(self@, *handle, i as int),
    {
        let mut i: usize = 0;
        while i < self.timers.len()
            invariant
                self.wf(),
                i <= self.timers@.len(),
                forall|j: int| 0 <= j < i ==> (#[trigger] self@[j]).0.before(*handle),
            decreases self.timers@.len() - i,
        {
            if !self.timers[i].handle.comes_before(handle) {
                assert(!self@[i as int].0.before(*handle));
                assert forall|j: int| i <= j < self@.len() implies !(
                #[trigger] self@[j]).0.before(*handle) by {
                    if j > i {
                        assert(self@[i as int].0.before(self@[j].0));
                    }
                }
                return i;
            }
            assert(self@[i as int].0.before(*handle));
            i += 1;
        }
        i
    }

    /// Register a timer that wakes `waker` at `deadline`. Returns the handle by
    /// which it can be cancelled.
    pub fn register_timer(&mut self, ids: &mut TimerIds, deadline: u128, waker: W) -> (h:
        TimerHandle)
        requires
            old(self).wf(),
        ensures
            final(self).wf(),
            h.deadline_view() == deadline,
            h.id_view() == old(ids).upcoming(),
            final(ids).upcoming() == next_id(old(ids).upcoming()),
            exists|i: int|
                #[trigger] place_of(old(self)@, h, i) && final(self)@ == with_timer(
                    old(self)@,
                    h,
                    waker,
                    i,
                ),
            numbered_below(old(self)@, old(ids).upcoming()) ==> {
                &&& !is_pending(old(self)@, h)
                &&& final(self)@.len() == old(self)@.len() + 1
                &&& old(ids).upcoming() < u64::MAX ==> numbered_below(
                    final(self)@,
                    final(ids).upcoming(),
                )
            },
    {
        let handle = TimerHandle::new(ids, deadline);
        let i: usize = self.find(&handle);
        let ghost before = self@;
        if i < self.timers.len() && self.timers[i].handle == handle {
            self.timers.set(i, TimerEntry { handle, waker });
            assert(before[i as int].0 == handle);
            assert(self@ =~= with_timer(before, handle, waker, i as int));
            assert(in_order(self@)) by {
                assert forall|a: int, b: int| 0 <= a < b < self@.len() implies (
                #[trigger] self@[a]).0.before((#[trigger] self@[b]).0) by {
                    assert(self@[a].0 == before[a].0 && self@[b].0 == before[b].0);
                }
            }
        } else {
            self.timers.insert(i, TimerEntry { handle, waker });
            assert(i < before.len() ==> before[i as int].0 != handle);
            assert(self@ =~= with_timer(before, handle, waker, i as int));
            proof {
                lemma_inserted_in_order(before, handle, waker, i as int);
            }
        }
        proof {
            if numbered_below(before, handle.id_view()) {
                fresh_timer_is_added(before, handle, waker, i as int);
            }
        }
        handle
    }

    /// Cancel a timer. Returns whether it was pending.
    pub fn cancel_timer(&mut self, handle: TimerHandle) -> (r: bool)
        requires
            old(self).wf(),
        ensures
            final(self).wf(),
            r == is_pending(old(self)@, handle),
            if r {
                exists|i: int|
                    0 <= i < old(self)@.len() && (#[trigger] old(self)@[i]).0 == handle && final(self)@ == old(self)@.remove(i)
            } else {
                final(self)@ == old(self)@
            },
            forall|next: u64|
                numbered_below(old(self)@, next) ==> #[trigger] numbered_below(
                    final(self)@,
                    next,
                ),
    {
        let i: usize = self.find(&handle);
        let ghost before = self@;
        if i < self.timers.len() && self.timers[i].handle == handle {
            let _ = self.timers.remove(i);
            assert(before[i as int].0 == handle);
            assert(self@ =~= before.remove(i as int));
            assert forall|next: u64| numbered_below(before, next) implies #[trigger] numbered_below(
                self@,
                next,
            ) by {
                assert forall|a: int| 0 <= a < self@.len() implies (
                #[trigger] self@[a]).0.id_view() < next by {
                    let a0 = if a < i {
                        a
                    } else {
                        a + 1
                    };
                    assert(self@[a] == before[a0]);
                }
            }
            assert(in_order(self@)) by {
                assert forall|a: int, b: int| 0 <= a < b < self@.len() implies (
                #[trigger] self@[a]).0.before((#[trigger] self@[b]).0) by {
                    let a0 = if a < i {
                        a
                    } else {
                        a + 1
                    };
                    let b0 = if b < i {
                        b
                    } else {
                        b + 1
                    };
                    assert(self@[a] == before[a0] && self@[b] == before[b0]);
                }
            }
            true
        } else {
            proof {
                if is_pending(before, handle) {
                    let j = choose|j: int| 0 <= j < before.len() && (#[trigger] before[j]).0
                        == handle;
                    handles_are_ordered(handle, handle);
                    if j > i {
                        assert(before[i as int].0.before(before[j].0));
                    }
                }
            }
            false
        }
    }

    /// The number of pending timers.
    pub fn timer_count(&self) -> (n: usize)
        ensures
            n == self@.len(),
    {
        self.timers.len()
    }

    /// Take out all timers that have expired at `now`. Returns the wakers to
    /// wake, in order.
    pub fn wake_expired_timers(&mut self, now: u128) -> (woken: Vec<W>)
        requires
            old(self).wf(),
        ensures
            final(self).wf(),
            ({
                let k = expired_count(old(self)@, now) as int;
                &&& 0 <= k <= old(self)@.len()
                &&& woken@ == Seq::new(k as nat, |i: int| old(self)@[i].1)
                &&& final(self)@ == old(self)@.skip(k)
            }),
            forall|next: u64|
                numbered_below(old(self)@, next) ==> #[trigger] numbered_below(
                    final(self)@,
                    next,
                ),
    {
        let ghost before = self@;
        let mut k: usize = 0;
        while k < self.timers.len() && self.timers[k].handle.deadline <= now
            invariant
                self@ == before,
                k <= self.timers@.len(),
                forall|j: int| 0 <= j < k ==> (#[trigger] before[j]).0.deadline_view() <= now,
            decreases self.timers@.len() - k,
        {
            assert(before[k as int].0.deadline_view() <= now);
            k += 1;
        }
        proof {
            lemma_expired_count(before, now, k as int);
        }
        let ghost entries = self.timers@;
        let rest: Vec<TimerEntry<W>> = self.timers.split_off(k);
        let mut due: Vec<TimerEntry<W>> = Vec::new();
        std::mem::swap(&mut due, &mut self.timers);
        self.timers = rest;
        assert(self@ =~= before.skip(k as int));
        assert(in_order(self@)) by {
            assert forall|a: int, b: int| 0 <= a < b < self@.len() implies (
            #[trigger] self@[a]).0.before((#[trigger] self@[b]).0) by {
                assert(self@[a] == before[a + k] && self@[b] == before[b + k]);
            }
        }
        assert forall|next: u64| numbered_below(before, next) implies #[trigger] numbered_below(
            self@,
            next,
        ) by {
            assert forall|a: int| 0 <= a < self@.len() implies (#[trigger] self@[a]).0.id_view()
                < next by {
                assert(self@[a] == before[a + k]);
            }
        }
        let woken: Vec<W> = wakers_of(due);
        assert(woken@ =~= Seq::new(k as nat, |i: int| before[i].1)) by {
            assert(forall|i: int| 0 <= i < k ==> #[trigger] entries[i].waker == before[i].1);
        }
        woken
    }

    /// Poll the reactor at `now`: take out what has expired.
    pub fn poll(&mut self, now: u128) -> (woken: Vec<W>)
        requires
            old(self).wf(),
        ensures
            final(self).wf(),
            ({
                let k = expired_count(old(self)@, now) as int;
                &&& 0 <= k <= old(self)@.len()
                &&& woken@ == Seq::new(k as nat, |i: int| old(self)@[i].1)
                &&& final(self)@ == old(self)@.skip(k)
            }),
            forall|next: u64|
                numbered_below(old(self)@, next) ==> #[trigger] numbered_below(
                    final(self)@,
                    next,
                ),
    {
        self.wake_expired_timers(now)
    }

    /// Running as long as a timer is pending.
    pub fn status(&self) -> (s: ReactorStatus)
        ensures
            s == if self@.len() > 0 {
                ReactorStatus::Running
            } else {
                ReactorStatus::Stopped
            },
    {
        if self.timers.len() > 0 {
            ReactorStatus::Running
        } else {
            ReactorStatus::Stopped
        }
    }
}

/// The wakers of a list of entries, in order.
fn wakers_of<W>(entries: Vec<TimerEntry<W>>) -> (wakers: Vec<W>)
    ensures
        wakers@ == Seq::new(entries@.len(), |i: int| entries@[i].waker),
{
    let ghost all = entries@;
    let mut rest: Vec<TimerEntry<W>> = entries;
    let mut back: Vec<W> = Vec::new();
    while rest.len() > 0
        invariant
            rest@.len() + back@.len() == all.len(),
            rest@ =~= all.take(rest@.len() as int),
            back@ =~= Seq::new(
                (all.len() - rest@.len()) as nat,
                |j: int| all[all.len() - 1 - j].waker,
            ),
        decreases rest@.len(),
    {
        let entry = rest.pop().unwrap();
        back.push(entry.waker);
    }
    let mut wakers: Vec<W> = Vec::new();
    while back.len() > 0
        invariant
            back@.len() + wakers@.len() == all.len(),
            back@ =~= Seq::new(back@.len(), |j: int| all[all.len() - 1 - j].waker),
            wakers@ =~= Seq::new(wakers@.len(), |i: int| all[i].waker),
        decreases back@.len(),
    {
        let waker = back.pop().unwrap();
        wakers.push(waker);
    }
    wakers
}

/// A timer put at its place keeps the order.
proof fn lemma_inserted_in_order<W>(
    timers: Seq<(TimerHandle, W)>,
    handle: TimerHandle,
    waker: W,
    i: int,
)
    requires
        in_order(timers),
        place_of(timers, handle, i),
        i < timers.len() ==> timers[i].0 != handle,
    ensures
        in_order(timers.insert(i, (handle, waker))),
{
    let after = timers.insert(i, (handle, waker));
    assert forall|a: int, b: int| 0 <= a < b < after.len() implies (#[trigger] after[a]).0.before(
        (#[trigger] after[b]).0,
    ) by {
        if a == i {
            assert(after[b] == timers[b - 1]);
            assert(!timers[b - 1].0.before(handle));
            handles_are_ordered(handle, timers[b - 1].0);
            if timers[b - 1].0 == handle && b - 1 > i {
                assert(timers[i].0.before(timers[b - 1].0));
                assert(!timers[i].0.before(handle));
            }
        } else if b == i {
            assert(after[a] == timers[a]);
        } else {
            let a0 = if a < i {
                a
            } else {
                a - 1
            };
            let b0 = if b < i {
                b
            } else {
                b - 1
            };
            assert(after[a] == timers[a0] && after[b] == timers[b0]);
        }
    }
}

/// A registered timer is pending until it fires or is cancelled.
pub proof fn registered_timer_is_pending<W>(
    timers: Seq<(TimerHandle, W)>,
    handle: TimerHandle,
    waker: W,
    i: int,
)
    requires
        place_of(timers, handle, i),
    ensures
        is_pending(with_timer(timers, handle, waker, i), handle),
        forall|other: TimerHandle|
            is_pending(timers, other) ==> #[trigger] is_pending(
                with_timer(timers, handle, waker, i),
                other,
            ),
{
    let after = with_timer(timers, handle, waker, i);
    assert(after[i].0 == handle);
    assert forall|other: TimerHandle| is_pending(timers, other) implies #[trigger] is_pending(
        after,
        other,
    ) by {
        let j = choose|j: int| 0 <= j < timers.len() && (#[trigger] timers[j]).0 == other;
        let j0 = if after.len() == timers.len() || j < i {
            j
        } else {
            j + 1
        };
        assert(after[j0].0 == other);
    }
}

/// A timer whose number no pending timer has reached is added to them: its
/// handle is not pending before, so that timers of one deadline do not collide,
/// there is one timer more, and nothing else changes.
pub proof fn fresh_timer_is_added<W>(
    timers: Seq<(TimerHandle, W)>,
    handle: TimerHandle,
    waker: W,
    i: int,
)
    requires
        numbered_below(timers, handle.id_view()),
        place_of(timers, handle, i),
    ensures
        !is_pending(timers, handle),
        with_timer(timers, handle, waker, i) == timers.insert(i, (handle, waker)),
        with_timer(timers, handle, waker, i).len() == timers.len() + 1,
        forall|next: u64|
            handle.id_view() < next ==> #[trigger] numbered_below(
                with_timer(timers, handle, waker, i),
                next,
            ),
{
    let after = timers.insert(i, (handle, waker));
    assert forall|next: u64| handle.id_view() < next implies #[trigger] numbered_below(
        after,
        next,
    ) by {
        assert forall|a: int| 0 <= a < after.len() implies (#[trigger] after[a]).0.id_view()
            < next by {
            if a < i {
                assert(after[a] == timers[a]);
            } else if a > i {
                assert(after[a] == timers[a - 1]);
            }
        }
    }
}

/// A fresh timer that is cancelled again leaves the timers as they were.
pub proof fn cancelling_undoes_registering<W>(
    timers: Seq<(TimerHandle, W)>,
    handle: TimerHandle,
    waker: W,
    i: int,
    j: int,
)
    requires
        numbered_below(timers, handle.id_view()),
        place_of(timers, handle, i),
        0 <= j < with_timer(timers, handle, waker, i).len(),
        with_timer(timers, handle, waker, i)[j].0 == handle,
    ensures
        with_timer(timers, handle, waker, i).remove(j) == timers,
{
    let after = with_timer(timers, handle, waker, i);
    fresh_timer_is_added(timers, handle, waker, i);
    if j < i {
        assert(after[j] == timers[j]);
    } else if j > i {
        assert(after[j] == timers[j - 1]);
    }
    assert(after.remove(j) =~= timers);
}

/// A call on a timer reactor.
pub enum TimerEvent<W> {
    /// A timer was registered under this handle.
    Register { handle: TimerHandle, waker: W },
    /// A timer was to be cancelled.
    Cancel { handle: TimerHandle },
    /// The reactor was polled.
    Poll { now: u128 },
}

/// What a call makes of the timers. A registration takes the number `next` or,
/// where other reactors draw from the same source, a later one.
pub open spec fn timer_step<W>(
    before: (Seq<(TimerHandle, W)>, u64),
    event: TimerEvent<W>,
    after: (Seq<(TimerHandle, W)>, u64),
) -> bool {
    match event {
        TimerEvent::Register { handle, waker } => {
            &&& before.1 <= handle.id_view() < u64::MAX
            &&& after.1 == next_id(handle.id_view())
            &&& exists|i: int|
                #[trigger] place_of(before.0, handle, i) && after.0 == with_timer(
                    before.0,
                    handle,
                    waker,
                    i,
                )
        },
        TimerEvent::Cancel { handle } => {
            &&& after.1 == before.1
            &&& if is_pending(before.0, handle) {
                exists|i: int|
                    0 <= i < before.0.len() && (#[trigger] before.0[i]).0 == handle && after.0
                        == before.0.remove(i)
            } else {
                after.0 == before.0
            }
        },
        TimerEvent::Poll { now } => {
            &&& after.1 == before.1
            &&& after.0 == before.0.skip(expired_count(before.0, now) as int)
        },
    }
}

/// The timers after each call on a reactor that was empty at first.
pub open spec fn timer_history<W>(
    states: Seq<(Seq<(TimerHandle, W)>, u64)>,
    events: Seq<TimerEvent<W>>,
) -> bool {
    &&& states.len() == events.len() + 1
    &&& states[0].0.len() == 0
    &&& forall|k: int|
        #![trigger events[k]]
        0 <= k < events.len() ==> timer_step(states[k], events[k], states[k + 1])
}

/// By how much a call changes the number of timers: a registration adds one, a
/// cancellation that finds its timer takes one away, and a poll takes away those
/// that have expired.
pub open spec fn count_change<W>(timers: Seq<(TimerHandle, W)>, event: TimerEvent<W>) -> int {
    match event {
        TimerEvent::Register { .. } => 1,
        TimerEvent::Cancel { handle } => if is_pending(timers, handle) {
            -1
        } else {
            0
        },
        TimerEvent::Poll { now } => -(expired_count(timers, now) as int),
    }
}

/// The changes of the first `n` calls together.
pub open spec fn counted<W>(
    states: Seq<(Seq<(TimerHandle, W)>, u64)>,
    events: Seq<TimerEvent<W>>,
    n: int,
) -> int
    decreases n,
{
    if n <= 0 {
        0
    } else {
        counted(states, events, n - 1) + count_change(states[n - 1].0, events[n - 1])
    }
}

/// After any calls the pending timers are those registered without those
/// cancelled and those expired, counted one by one; they are in order, and
/// their numbers lie below the one that comes next.
pub proof fn timer_count_follows_history<W>(
    states: Seq<(Seq<(TimerHandle, W)>, u64)>,
    events: Seq<TimerEvent<W>>,
    n: int,
)
    requires
        timer_history(states, events),
        0 <= n <= events.len(),
    ensures
        states[n].0.len() == counted(states, events, n),
        in_order(states[n].0),
        numbered_below(states[n].0, states[n].1),
    decreases n,
{
    if n > 0 {
        timer_count_follows_history(states, events, n - 1);
        let before = states[n - 1].0;
        let after = states[n].0;
        let event = events[n - 1];
        assert(timer_step(states[n - 1], event, states[n - 1 + 1]));
        match event {
            TimerEvent::Register { handle, waker } => {
                let i = choose|i: int|
                    #[trigger] place_of(before, handle, i) && after == with_timer(
                        before,
                        handle,
                        waker,
                        i,
                    );
                fresh_timer_is_added(before, handle, waker, i);
                lemma_inserted_in_order(before, handle, waker, i);
                assert(numbered_below(with_timer(before, handle, waker, i), states[n].1));
            },
            TimerEvent::Cancel { handle } => {
                if is_pending(before, handle) {
                    let i = choose|i: int|
                        0 <= i < before.len() && (#[trigger] before[i]).0 == handle && after
                            == before.remove(i);
                    assert forall|a: int| 0 <= a < after.len() implies #[trigger] after[a]
                        == before[if a < i {
                        a
                    } else {
                        a + 1
                    }] by {}
                }
            },
            TimerEvent::Poll { now } => {
                timers_fire_exactly_when_due(before, now);
                let k = expired_count(before, now) as int;
                assert forall|a: int| 0 <= a < after.len() implies #[trigger] after[a]
                    == before[a + k] by {}
            },
        }
    }
}

/// A later registration never gets the handle of an earlier one, and among
/// timers of one deadline the one registered first comes first.
pub proof fn later_timers_come_later<W>(
    states: Seq<(Seq<(TimerHandle, W)>, u64)>,
    events: Seq<TimerEvent<W>>,
    a: int,
    b: int,
)
    requires
        timer_history(states, events),
        0 <= a < b < events.len(),
        events[a] is Register,
        events[b] is Register,
    ensures
        events[a]->Register_handle != events[b]->Register_handle,
        events[a]->Register_handle.deadline_view() == events[b]->Register_handle.deadline_view()
            ==> events[a]->Register_handle.before(events[b]->Register_handle),
{
    assert(timer_step(states[a], events[a], states[a + 1]));
    assert(timer_step(states[b], events[b], states[b + 1]));
    lemma_numbers_grow(states, events, a + 1, b);
}

/// The number that comes next never falls.
proof fn lemma_numbers_grow<W>(
    states: Seq<(Seq<(TimerHandle, W)>, u64)>,
    events: Seq<TimerEvent<W>>,
    a: int,
    b: int,
)
    requires
        timer_history(states, events),
        0 <= a <= b <= events.len(),
    ensures
        states[a].1 <= states[b].1,
    decreases b - a,
{
    if a < b {
        lemma_numbers_grow(states, events, a, b - 1);
        assert(timer_step(states[b - 1], events[b - 1], states[b - 1 + 1]));
    }
}

/// A delay: waits until its deadline.
#[derive(Debug)]
pub struct Delay {
    deadline: u128,
    timer_handle: Option<TimerHandle>,
}

impl Delay {
    pub closed spec fn deadline_view(&self) -> u128 {
        self.deadline
    }

    /// The timer that the delay has registered.
    pub closed spec fn handle_view(&self) -> Option<TimerHandle> {
        self.timer_handle
    }

    /// A delay that completes `duration` after `now`.
    pub fn new(now: u128, duration: u128) -> (d: Delay)
        requires
            now + duration <= u128::MAX,
        ensures
            d.deadline_view() == now + duration,
            d.handle_view() is None,
    {
        Self::new_at(now + duration)
    }

    /// A delay that completes at `deadline`.
    pub fn new_at(deadline: u128) -> (d: Delay)
        ensures
            d.deadline_view() == deadline,
            d.handle_view() is None,
    {
        Delay { deadline, timer_handle: None }
    }

    /// The deadline.
    pub fn deadline(&self) -> (d: u128)
        ensures
            d == self.deadline_view(),
    {
        self.deadline
    }

    /// The time left at `now`.
    pub fn remaining(&self, now: u128) -> (d: u128)
        ensures
            d == if self.deadline_view() > now {
                self.deadline_view() - now
            } else {
                0
            },
    {
        if self.deadline > now {
            self.deadline - now
        } else {
            0
        }
    }

    /// Poll the delay at `now`: ready once the deadline has come; before that
    /// the first poll registers a timer.
    pub fn poll<W>(
        &mut self,
        reactor: &mut TimerReactor<W>,
        ids: &mut TimerIds,
        now: u128,
        waker: W,
    ) -> (r: Poll<()>)
        requires
            old(reactor).wf(),
        ensures
            final(reactor).wf(),
            final(self).deadline_view() == old(self).deadline_view(),
            (r is Ready) == (now >= old(self).deadline_view()),
            if r is Ready || old(self).handle_view() is Some {
                &&& *final(self) == *old(self)
                &&& final(reactor)@ == old(reactor)@
                &&& final(ids).upcoming() == old(ids).upcoming()
            } else {
                &&& final(self).handle_view() matches Some(h)
                &&& h.deadline_view() == old(self).deadline_view()
                &&& h.id_view() == old(ids).upcoming()
                &&& final(ids).upcoming() == next_id(old(ids).upcoming())
                &&& exists|i: int|
                    #[trigger] place_of(old(reactor)@, h, i) && final(reactor)@ == with_timer(
                        old(reactor)@,
                        h,
                        waker,
                        i,
                    )
                &&& numbered_below(old(reactor)@, old(ids).upcoming()) ==> {
                    &&& !is_pending(old(reactor)@, h)
                    &&& final(reactor)@.len() == old(reactor)@.len() + 1
                    &&& old(ids).upcoming() < u64::MAX ==> numbered_below(
                        final(reactor)@,
                        final(ids).upcoming(),
                    )
                }
            },
    {
        if now >= self.deadline {
            return Poll::Ready(());
        }
        if self.timer_handle.is_none() {
            let handle = reactor.register_timer(ids, self.deadline, waker);
            self.timer_handle = Some(handle);
        }
        Poll::Pending
    }

    /// The delay is dropped: its timer is cancelled if it is still pending.
    pub fn cancel<W>(&self, reactor: &mut TimerReactor<W>)
        requires
            old(reactor).wf(),
        ensures
            final(reactor).wf(),
            match self.handle_view() {
                Some(h) if is_pending(old(reactor)@, h) => exists|i: int|
                    0 <= i < old(reactor)@.len() && (#[trigger] old(reactor)@[i]).0 == h && final(reactor)@ == old(reactor)@.remove(i),
                _ => final(reactor)@ == old(reactor)@,
            },
            forall|next: u64|
                numbered_below(old(reactor)@, next) ==> #[trigger] numbered_below(
                    final(reactor)@,
                    next,
                ),
    {
        match self.timer_handle {
            Some(handle) => {
                let _ = reactor.cancel_timer(handle);
            },
            None => {},
        }
    }
}

/// A delay of `duration` from `now` on.
pub fn sleep(now: u128, duration: u128) -> (d: Delay)
    requires
        now + duration <= u128::MAX,
    ensures
        d.deadline_view() == now + duration,
        d.handle_view() is None,
{
    Delay::new(now, duration)
}


/// The earlier deadline comes first, and of one deadline the smaller number.
pub proof fn earlier_deadline_comes_first(a: TimerHandle, b: TimerHandle)
    ensures
        a.deadline_view() < b.deadline_view() ==> a.before(b),
        a.deadline_view() > b.deadline_view() ==> !a.before(b),
        a.deadline_view() == b.deadline_view() ==> (a.before(b) <==> a.id_view() < b.id_view()),
{
}

/// Numbers count up one by one, and begin anew only after the largest.
pub proof fn numbers_count_up(id: u64)
    ensures
        id < u64::MAX ==> next_id(id) == id + 1,
        id == u64::MAX ==> next_id(id) == 0,
{
}

/// Timers in order have their deadlines in order, and no handle stands twice.
pub proof fn ordered_timers_have_ordered_deadlines<W>(
    timers: Seq<(TimerHandle, W)>,
    i: int,
    j: int,
)
    requires
        in_order(timers),
        0 <= i < j < timers.len(),
    ensures
        timers[i].0.deadline_view() <= timers[j].0.deadline_view(),
        timers[i].0.deadline_view() == timers[j].0.deadline_view() ==> timers[i].0.id_view()
            < timers[j].0.id_view(),
        timers[i].0 != timers[j].0,
{
    assert(timers[i].0.before(timers[j].0));
}

/// There is one place for a handle: between those before it and the others.
/// Registering a handle that is not pending puts it there, and every other
/// timer keeps its waker and its order.
pub proof fn registering_inserts_at_the_place<W>(
    timers: Seq<(TimerHandle, W)>,
    handle: TimerHandle,
    waker: W,
    i: int,
    j: int,
    k: int,
)
    requires
        place_of(timers, handle, i),
        !is_pending(timers, handle),
    ensures
        place_of(timers, handle, j) ==> j == i,
        0 <= k < timers.len() && timers[k].0.deadline_view() < handle.deadline_view() ==> k < i,
        0 <= k < timers.len() && timers[k].0.deadline_view() > handle.deadline_view() ==> i <= k,
        with_timer(timers, handle, waker, i).len() == timers.len() + 1,
        with_timer(timers, handle, waker, i)[i] == (handle, waker),
        0 <= k < i ==> with_timer(timers, handle, waker, i)[k] == timers[k],
        i <= k < timers.len() ==> with_timer(timers, handle, waker, i)[k + 1] == timers[k],
{
    assert(i < timers.len() ==> timers[i].0 != handle);
    if place_of(timers, handle, j) {
        if i < j {
            assert(timers[i].0.before(handle));
        } else if j < i {
            assert(timers[j].0.before(handle));
        }
    }
    if 0 <= k < timers.len() {
        if k < i {
            assert(timers[k].0.before(handle));
        } else {
            assert(!timers[k].0.before(handle));
        }
    }
}

/// A cancelled timer is no longer pending, and every other one still is.
pub proof fn cancelling_removes_one_timer<W>(
    timers: Seq<(TimerHandle, W)>,
    i: int,
    other: TimerHandle,
)
    requires
        in_order(timers),
        0 <= i < timers.len(),
    ensures
        is_pending(timers, timers[i].0),
        !is_pending(timers.remove(i), timers[i].0),
        other != timers[i].0 ==> is_pending(timers.remove(i), other) == is_pending(timers, other),
        timers.remove(i).len() == timers.len() - 1,
{
    let after = timers.remove(i);
    assert forall|a: int| 0 <= a < after.len() implies (#[trigger] after[a]).0 != timers[i].0 by {
        if a < i {
            assert(after[a] == timers[a]);
            assert(timers[a].0.before(timers[i].0));
        } else {
            assert(after[a] == timers[a + 1]);
            assert(timers[i].0.before(timers[a + 1].0));
        }
    }
    if other != timers[i].0 {
        if is_pending(timers, other) {
            let a = choose|a: int| 0 <= a < timers.len() && (#[trigger] timers[a]).0 == other;
            let a1 = if a < i {
                a
            } else {
                a - 1
            };
            assert(after[a1].0 == other);
        }
        if is_pending(after, other) {
            let a = choose|a: int| 0 <= a < after.len() && (#[trigger] after[a]).0 == other;
            let a0 = if a < i {
                a
            } else {
                a + 1
            };
            assert(timers[a0].0 == other);
        }
    }
}

} // verus!
