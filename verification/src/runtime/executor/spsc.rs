//! Single-thread channel on a ring buffer.
//!
//! `Channel` is the ring itself; `Sender` and `Receiver` are the two ends'
//! handles, and every operation of a handle names the channel it works on. The
//! channel counts the handles of each end: an end is gone once its last handle
//! has been given up.

use vstd::prelude::*;

verus! {

/// The receiver is gone, or the channel is full; the message comes back.
#[derive(Debug, PartialEq, Eq)]
pub struct SendError<T>(pub T);

/// Why a message could not be sent; it comes back.
#[derive(Debug, PartialEq, Eq)]
pub enum TrySendError<T> {
    Full(T),
    Disconnected(T),
}

/// The channel is empty and the sender is gone.
#[derive(Debug, PartialEq, Eq)]
pub struct RecvError;

/// Why there is no message.
#[derive(Debug, PartialEq, Eq, Structural)]
pub enum TryRecvError {
    Empty,
    Disconnected,
}

/// Why a message could not be sent in time; it comes back.
#[derive(Debug, PartialEq, Eq)]
pub enum SendTimeoutError<T> {
    Timeout(T),
    Disconnected(T),
}

/// Why there was no message in time.
#[derive(Debug, PartialEq, Eq, Structural)]
pub enum RecvTimeoutError {
    Timeout,
    Disconnected,
}

/// One turn of a waiting receive.
#[derive(Debug, PartialEq, Eq)]
pub enum RecvStep<T, E> {
    /// The receive is over.
    Done(Result<T, E>),
    /// Nothing yet: yield and try again.
    Yield,
}

/// Slots that an unbounded channel starts with.
pub const DEFAULT_INIT: usize = 32;

/// The ring: elements from `tail` up to `head`, wrapping around. One slot stays
/// empty, which tells a full ring from an empty one.
#[derive(Debug)]
pub struct Channel<T> {
    buf: Vec<Option<T>>,
    head: usize,
    tail: usize,
    unbounded: bool,
    senders: usize,
    receivers: usize,
}

/// The slot of the `k`-th element of a ring of `m` slots.
spec fn slot_index(tail: int, k: int, m: int) -> int {
    if tail + k < m {
        tail + k
    } else {
        tail + k - m
    }
}

/// What is in a channel.
#[verifier::ext_equal]
pub struct ChannelView<T> {
    /// The messages, the oldest first.
    pub queue: Seq<T>,
    /// How many messages fit.
    pub capacity: int,
    /// Whether the channel grows.
    pub unbounded: bool,
    /// How many handles the sending end has.
    pub senders: int,
    /// How many handles the receiving end has.
    pub receivers: int,
}

impl<T> ChannelView<T> {
    /// Some sender is left.
    pub open spec fn sender_alive(self) -> bool {
        self.senders > 0
    }

    /// Some receiver is left.
    pub open spec fn receiver_alive(self) -> bool {
        self.receivers > 0
    }

    /// The channel with `change` more handles at its sending end.
    pub open spec fn with_senders(self, change: int) -> ChannelView<T> {
        ChannelView { senders: self.senders + change, ..self }
    }

    /// The channel with `change` more handles at its receiving end.
    pub open spec fn with_receivers(self, change: int) -> ChannelView<T> {
        ChannelView { receivers: self.receivers + change, ..self }
    }

    /// No further message fits as it is.
    pub open spec fn full(self) -> bool {
        self.queue.len() == self.capacity
    }

    /// A full channel can make room: it is unbounded, and twice its capacity
    /// and the empty slot can be counted.
    pub open spec fn can_grow(self) -> bool {
        self.unbounded && 2 * self.capacity + 1 <= usize::MAX
    }

    /// A message can be sent.
    pub open spec fn accepts(self) -> bool {
        self.receiver_alive() && (!self.full() || self.can_grow())
    }

    /// The channel after `msg` was sent: the message is last, and a full
    /// channel has doubled.
    pub open spec fn after_send(self, msg: T) -> ChannelView<T> {
        ChannelView {
            queue: self.queue.push(msg),
            capacity: if self.full() {
                grown(self.capacity)
            } else {
                self.capacity
            },
            ..self
        }
    }

    /// The channel after the oldest message was taken.
    pub open spec fn after_recv(self) -> ChannelView<T> {
        ChannelView { queue: self.queue.skip(1), ..self }
    }
}

/// An empty channel with one handle at each end.
pub open spec fn fresh<T>(capacity: int, unbounded: bool) -> ChannelView<T> {
    ChannelView {
        queue: Seq::empty(),
        capacity,
        unbounded,
        senders: 1,
        receivers: 1,
    }
}

/// The capacity of a channel that has grown.
pub open spec fn grown(capacity: int) -> int {
    if 2 * capacity >= 2 {
        2 * capacity
    } else {
        2
    }
}

impl<T> View for Channel<T> {
    type V = ChannelView<T>;

    closed spec fn view(&self) -> ChannelView<T> {
        ChannelView {
            queue: Seq::new(
                self.count() as nat,
                |k: int| self.buf@[slot_index(self.tail as int, k, self.buf@.len() as int)]->0,
            ),
            capacity: self.buf@.len() - 1,
            unbounded: self.unbounded,
            senders: self.senders as int,
            receivers: self.receivers as int,
        }
    }
}

impl<T> Channel<T> {
    /// The number of elements between `tail` and `head`.
    spec fn count(&self) -> int {
        if self.head >= self.tail {
            self.head - self.tail
        } else {
            self.buf@.len() - self.tail + self.head
        }
    }

    /// The indices lie in the ring, and every element is there.
    pub closed spec fn wf(&self) -> bool {
        &&& self.buf@.len() >= 2
        &&& self.head < self.buf@.len()
        &&& self.tail < self.buf@.len()
        &&& forall|k: int|
            0 <= k < self.count() ==> #[trigger] self.buf@[slot_index(
                self.tail as int,
                k,
                self.buf@.len() as int,
            )] is Some
    }

    /// An empty ring of `cap` usable slots.
    fn with_slots(cap: usize, unbounded: bool) -> (ch: Self)
        requires
            0 < cap < usize::MAX,
        ensures
            ch.wf(),
            ch@ == fresh::<T>(cap as int, unbounded),
    {
        let ch = Channel {
            buf: empty_slots(cap + 1),
            head: 0,
            tail: 0,
            unbounded,
            senders: 1,
            receivers: 1,
        };
        assert(ch@.queue =~= Seq::<T>::empty());
        ch
    }

    /// The slot after `i`.
    fn inc(&self, i: usize) -> (r: usize)
        requires
            self.wf(),
            i < self.buf@.len(),
        ensures
            r == slot_index(i as int, 1, self.buf@.len() as int),
    {
        next_slot(i, self.buf.len())
    }

    /// Whether there is no message.
    pub fn is_empty(&self) -> (r: bool)
        requires
            self.wf(),
        ensures
            r == (self@.queue.len() == 0),
    {
        self.head == self.tail
    }

    /// Whether no message fits.
    pub fn is_full(&self) -> (r: bool)
        requires
            self.wf(),
        ensures
            r == self@.full(),
    {
        self.inc(self.head) == self.tail
    }

    /// How many messages fit.
    pub fn capacity(&self) -> (r: usize)
        requires
            self.wf(),
        ensures
            r == self@.capacity,
    {
        self.buf.len() - 1
    }

    /// How many messages wait.
    pub fn len(&self) -> (r: usize)
        requires
            self.wf(),
        ensures
            r == self@.queue.len(),
            r <= self@.capacity,
    {
        if self.head >= self.tail {
            self.head - self.tail
        } else {
            self.buf.len() - self.tail + self.head
        }
    }

    /// How many handles the sending end has.
    pub fn sender_count(&self) -> (n: usize)
        ensures
            n == self@.senders,
    {
        self.senders
    }

    /// How many handles the receiving end has.
    pub fn receiver_count(&self) -> (n: usize)
        ensures
            n == self@.receivers,
    {
        self.receivers
    }

    /// Whether a message can be sent.
    pub fn accepts(&self) -> (r: bool)
        requires
            self.wf(),
        ensures
            r == self@.accepts(),
    {
        self.receivers > 0 && (!self.is_full() || (self.unbounded && self.capacity() <= (
        usize::MAX - 1) / 2))
    }

    /// Double a full unbounded ring, keeping the messages in order.
    fn try_grow(&mut self)
        requires
            old(self).wf(),
        ensures
            final(self).wf(),
            final(self)@ == if old(self)@.full() && old(self)@.can_grow() {
                ChannelView { capacity: grown(old(self)@.capacity), ..old(self)@ }
            } else {
                old(self)@
            },
    {
        if !self.unbounded || !self.is_full() {
            return;
        }
        let old_cap: usize = self.capacity();
        if old_cap > (usize::MAX - 1) / 2 {
            return;
        }
        let new_cap: usize = if 2 * old_cap >= 2 {
            2 * old_cap
        } else {
            2
        };
        let ghost before = self@;
        let count: usize = self.len();
        let mut new_buf: Vec<Option<T>> = Vec::new();
        let mut t: usize = self.tail;
        let mut i: usize = 0;
        while i < count
            invariant
                i <= count,
                count == before.queue.len(),
                count == self.count(),
                self.buf@.len() >= 2,
                self.head < self.buf@.len(),
                self.tail < self.buf@.len(),
                self.tail == old(self).tail,
                self.head == old(self).head,
                self.unbounded == old(self).unbounded,
                self.senders == old(self).senders,
                self.receivers == old(self).receivers,
                self.buf@.len() == old(self).buf@.len(),
                t < self.buf@.len(),
                i < count ==> t == slot_index(self.tail as int, i as int, self.buf@.len() as int),
                count < self.buf@.len(),
                before == old(self)@,
                forall|k: int|
                    i <= k < count ==> #[trigger] self.buf@[slot_index(
                        self.tail as int,
                        k,
                        self.buf@.len() as int,
                    )] == Some(before.queue[k]),
                new_buf@.len() == i,
                forall|k: int| 0 <= k < i ==> #[trigger] new_buf@[k] == Some(before.queue[k]),
            decreases count - i,
        {
            let ghost held = self.buf@;
            let slot = self.buf[t].take();
            proof {
                let m = held.len() as int;
                assert(held[slot_index(self.tail as int, i as int, m)] == Some(before.queue[i as int]));
                assert forall|k: int| i + 1 <= k < count implies #[trigger] self.buf@[slot_index(
                    self.tail as int,
                    k,
                    m,
                )] == Some(before.queue[k]) by {
                    assert(held[slot_index(self.tail as int, k, m)] == Some(before.queue[k]));
                }
            }
            new_buf.push(slot);
            t = next_slot(t, self.buf.len());
            i += 1;
        }
        let mut rest: Vec<Option<T>> = empty_slots(new_cap + 1 - count);
        new_buf.append(&mut rest);
        self.buf = new_buf;
        self.tail = 0;
        self.head = count;
        assert(self@.queue =~= before.queue) by {
            assert forall|k: int| 0 <= k < count implies #[trigger] self@.queue[k]
                == before.queue[k] by {
                assert(self.buf@[k] == Some(before.queue[k]));
            }
        }
    }

    /// Put `msg` into the free slot at `head`.
    fn push(&mut self, msg: T)
        requires
            old(self).wf(),
            !old(self)@.full(),
        ensures
            final(self).wf(),
            final(self)@ == (ChannelView { queue: old(self)@.queue.push(msg), ..old(self)@ }),
    {
        let h: usize = self.head;
        let ghost m = self.buf@.len() as int;
        let ghost n = self.count();
        self.buf.set(h, Some(msg));
        let next: usize = next_slot(h, self.buf.len());
        self.head = next;
        proof {
            assert(slot_index(self.tail as int, n, m) == h);
            assert forall|k: int| 0 <= k < n implies #[trigger] self.buf@[slot_index(
                self.tail as int,
                k,
                m,
            )] == old(self).buf@[slot_index(self.tail as int, k, m)] by {
                assert(slot_index(self.tail as int, k, m) != h);
            }
            assert(self@.queue =~= old(self)@.queue.push(msg));
        }
    }

    /// Take the oldest message.
    fn pop(&mut self) -> (msg: T)
        requires
            old(self).wf(),
            old(self)@.queue.len() > 0,
        ensures
            final(self).wf(),
            msg == old(self)@.queue[0],
            final(self)@ == old(self)@.after_recv(),
    {
        let t: usize = self.tail;
        let ghost m = self.buf@.len() as int;
        let ghost n = self.count();
        proof {
            assert(slot_index(t as int, 0, m) == t);
            assert(self.buf@[slot_index(t as int, 0, m)] is Some);
        }
        let msg = self.buf[t].take().unwrap();
        let next: usize = next_slot(t, self.buf.len());
        self.tail = next;
        proof {
            assert forall|k: int| 0 <= k < n - 1 implies #[trigger] self.buf@[slot_index(
                next as int,
                k,
                m,
            )] == old(self).buf@[slot_index(t as int, k + 1, m)] && old(
                self,
            ).buf@[slot_index(t as int, k + 1, m)] is Some by {
                assert(slot_index(next as int, k, m) == slot_index(t as int, k + 1, m));
                assert(slot_index(t as int, k + 1, m) != t);
            }
            assert(self@.queue =~= old(self)@.queue.skip(1));
        }
        msg
    }
}

/// The slot after `i` in a ring of `m` slots.
fn next_slot(i: usize, m: usize) -> (r: usize)
    requires
        i < m,
    ensures
        r == slot_index(i as int, 1, m as int),
{
    if i + 1 == m {
        0
    } else {
        i + 1
    }
}

/// `n` empty slots.
fn empty_slots<T>(n: usize) -> (v: Vec<Option<T>>)
    ensures
        v@ == Seq::new(n as nat, |i: int| None::<T>),
{
    let mut v: Vec<Option<T>> = Vec::new();
    let mut i: usize = 0;
    while i < n
        invariant
            i <= n,
            v@ == Seq::new(i as nat, |j: int| None::<T>),
        decreases n - i,
    {
        v.push(None);
        i += 1;
    }
    v
}

/// A handle of the sending end of a channel.
#[derive(Debug)]
pub struct Sender {
    counted: (),
}

/// A handle of the receiving end of a channel.
#[derive(Debug)]
pub struct Receiver {
    counted: (),
}

/// Create a channel for up to `cap` messages.
pub fn bounded<T>(cap: usize) -> (r: (Channel<T>, Sender, Receiver))
    requires
        0 < cap < usize::MAX,
    ensures
        r.0.wf(),
        r.0@ == fresh::<T>(cap as int, false),
{
    (Channel::with_slots(cap, false), Sender { counted: () }, Receiver { counted: () })
}

/// Create a channel that grows.
pub fn unbounded<T>() -> (r: (Channel<T>, Sender, Receiver))
    ensures
        r.0.wf(),
        r.0@ == fresh::<T>(DEFAULT_INIT as int, true),
{
    (Channel::with_slots(DEFAULT_INIT, true), Sender { counted: () }, Receiver { counted: () })
}

impl Sender {
    /// Send without waiting. A full unbounded channel grows first.
    pub fn try_send<T>(&self, ch: &mut Channel<T>, msg: T) -> (r: Result<(), TrySendError<T>>)
        requires
            old(ch).wf(),
        ensures
            final(ch).wf(),
            match r {
                Ok(_) => old(ch)@.accepts() && final(ch)@ == old(ch)@.after_send(msg),
                Err(TrySendError::Disconnected(m)) => {
                    !old(ch)@.receiver_alive() && m == msg && final(ch)@ == old(ch)@
                },
                Err(TrySendError::Full(m)) => {
                    &&& old(ch)@.receiver_alive()
                    &&& old(ch)@.full()
                    &&& !old(ch)@.can_grow()
                    &&& m == msg
                    &&& final(ch)@ == old(ch)@
                },
            },
    {
        if ch.receivers == 0 {
            return Err(TrySendError::Disconnected(msg));
        }
        if ch.is_full() {
            ch.try_grow();
        }
        if ch.is_full() {
            return Err(TrySendError::Full(msg));
        }
        ch.push(msg);
        Ok(())
    }

    /// Send; a message that does not go through comes back.
    pub fn send<T>(&self, ch: &mut Channel<T>, msg: T) -> (r: Result<(), SendError<T>>)
        requires
            old(ch).wf(),
        ensures
            final(ch).wf(),
            match r {
                Ok(_) => old(ch)@.accepts() && final(ch)@ == old(ch)@.after_send(msg),
                Err(SendError(m)) => {
                    !old(ch)@.accepts() && m == msg && final(ch)@ == old(ch)@
                },
            },
    {
        match self.try_send(ch, msg) {
            Ok(()) => Ok(()),
            Err(TrySendError::Disconnected(m)) => Err(SendError(m)),
            Err(TrySendError::Full(m)) => Err(SendError(m)),
        }
    }

    /// How many messages wait.
    pub fn len<T>(&self, ch: &Channel<T>) -> (r: usize)
        requires
            ch.wf(),
        ensures
            r == ch@.queue.len(),
    {
        ch.len()
    }

    /// Whether no message waits.
    pub fn is_empty<T>(&self, ch: &Channel<T>) -> (r: bool)
        requires
            ch.wf(),
        ensures
            r == (ch@.queue.len() == 0),
    {
        ch.is_empty()
    }

    /// Whether the receiver is gone.
    pub fn is_disconnected<T>(&self, ch: &Channel<T>) -> (r: bool)
        ensures
            r == !ch@.receiver_alive(),
    {
        ch.receivers == 0
    }

    /// How many messages fit.
    pub fn capacity<T>(&self, ch: &Channel<T>) -> (r: usize)
        requires
            ch.wf(),
        ensures
            r == ch@.capacity,
    {
        ch.capacity()
    }

    /// Another handle of the sending end.
    pub fn clone_handle<T>(&self, ch: &mut Channel<T>) -> (s: Sender)
        requires
            old(ch).wf(),
            old(ch)@.senders < usize::MAX,
        ensures
            final(ch).wf(),
            final(ch)@ == old(ch)@.with_senders(1),
    {
        ch.senders = ch.senders + 1;
        assert(ch@.queue =~= old(ch)@.queue);
        Sender { counted: () }
    }

    /// Give this handle up. The sender is gone with its last handle.
    pub fn disconnect<T>(self, ch: &mut Channel<T>)
        requires
            old(ch).wf(),
            0 < old(ch)@.senders,
        ensures
            final(ch).wf(),
            final(ch)@ == old(ch)@.with_senders(-1),
    {
        ch.senders = ch.senders - 1;
        assert(ch@.queue =~= old(ch)@.queue);
    }
}

impl Receiver {
    /// Receive without waiting.
    pub fn try_recv<T>(&self, ch: &mut Channel<T>) -> (r: Result<T, TryRecvError>)
        requires
            old(ch).wf(),
        ensures
            final(ch).wf(),
            match r {
                Ok(v) => {
                    &&& old(ch)@.queue.len() > 0
                    &&& v == old(ch)@.queue[0]
                    &&& final(ch)@ == old(ch)@.after_recv()
                },
                Err(TryRecvError::Empty) => {
                    &&& old(ch)@.queue.len() == 0
                    &&& old(ch)@.sender_alive()
                    &&& final(ch)@ == old(ch)@
                },
                Err(TryRecvError::Disconnected) => {
                    &&& old(ch)@.queue.len() == 0
                    &&& !old(ch)@.sender_alive()
                    &&& final(ch)@ == old(ch)@
                },
            },
    {
        if ch.is_empty() {
            if ch.senders == 0 {
                return Err(TryRecvError::Disconnected);
            }
            return Err(TryRecvError::Empty);
        }
        Ok(ch.pop())
    }

    /// One turn of a receive that waits as long as the sender lives.
    pub fn recv<T>(&self, ch: &mut Channel<T>) -> (r: RecvStep<T, RecvError>)
        requires
            old(ch).wf(),
        ensures
            final(ch).wf(),
            match r {
                RecvStep::Done(Ok(v)) => {
                    &&& old(ch)@.queue.len() > 0
                    &&& v == old(ch)@.queue[0]
                    &&& final(ch)@ == old(ch)@.after_recv()
                },
                RecvStep::Done(Err(_)) => {
                    &&& old(ch)@.queue.len() == 0
                    &&& !old(ch)@.sender_alive()
                    &&& final(ch)@ == old(ch)@
                },
                RecvStep::Yield => {
                    &&& old(ch)@.queue.len() == 0
                    &&& old(ch)@.sender_alive()
                    &&& final(ch)@ == old(ch)@
                },
            },
    {
        match self.try_recv(ch) {
            Ok(v) => RecvStep::Done(Ok(v)),
            Err(TryRecvError::Disconnected) => RecvStep::Done(Err(RecvError)),
            Err(TryRecvError::Empty) => RecvStep::Yield,
        }
    }

    /// One turn, at time `now`, of a receive that gives up `timeout` after
    /// `start`.
    pub fn recv_timeout<T>(
        &self,
        ch: &mut Channel<T>,
        start: u128,
        timeout: u128,
        now: u128,
    ) -> (r: RecvStep<T, RecvTimeoutError>)
        requires
            old(ch).wf(),
            start + timeout <= u128::MAX,
        ensures
            final(ch).wf(),
            deadline_step(old(ch)@, final(ch)@, start + timeout, now as int, r),
    {
        self.recv_deadline(ch, start + timeout, now)
    }

    /// One turn, at time `now`, of a receive that gives up at `deadline`.
    pub fn recv_deadline<T>(
        &self,
        ch: &mut Channel<T>,
        deadline: u128,
        now: u128,
    ) -> (r: RecvStep<T, RecvTimeoutError>)
        requires
            old(ch).wf(),
        ensures
            final(ch).wf(),
            deadline_step(old(ch)@, final(ch)@, deadline as int, now as int, r),
    {
        match self.try_recv(ch) {
            Ok(v) => RecvStep::Done(Ok(v)),
            Err(TryRecvError::Disconnected) => RecvStep::Done(
                Err(RecvTimeoutError::Disconnected),
            ),
            Err(TryRecvError::Empty) => if now >= deadline {
                RecvStep::Done(Err(RecvTimeoutError::Timeout))
            } else {
                RecvStep::Yield
            },
        }
    }

    /// How many messages wait.
    pub fn len<T>(&self, ch: &Channel<T>) -> (r: usize)
        requires
            ch.wf(),
        ensures
            r == ch@.queue.len(),
    {
        ch.len()
    }

    /// Whether no message waits.
    pub fn is_empty<T>(&self, ch: &Channel<T>) -> (r: bool)
        requires
            ch.wf(),
        ensures
            r == (ch@.queue.len() == 0),
    {
        ch.is_empty()
    }

    /// Whether the sender is gone.
    pub fn is_disconnected<T>(&self, ch: &Channel<T>) -> (r: bool)
        ensures
            r == !ch@.sender_alive(),
    {
        ch.senders == 0
    }

    /// How many messages fit.
    pub fn capacity<T>(&self, ch: &Channel<T>) -> (r: usize)
        requires
            ch.wf(),
        ensures
            r == ch@.capacity,
    {
        ch.capacity()
    }

    /// Another handle of the receiving end.
    pub fn clone_handle<T>(&self, ch: &mut Channel<T>) -> (r: Receiver)
        requires
            old(ch).wf(),
            old(ch)@.receivers < usize::MAX,
        ensures
            final(ch).wf(),
            final(ch)@ == old(ch)@.with_receivers(1),
    {
        ch.receivers = ch.receivers + 1;
        assert(ch@.queue =~= old(ch)@.queue);
        Receiver { counted: () }
    }

    /// Give this handle up. The receiver is gone with its last handle.
    pub fn disconnect<T>(self, ch: &mut Channel<T>)
        requires
            old(ch).wf(),
            0 < old(ch)@.receivers,
        ensures
            final(ch).wf(),
            final(ch)@ == old(ch)@.with_receivers(-1),
    {
        ch.receivers = ch.receivers - 1;
        assert(ch@.queue =~= old(ch)@.queue);
    }
}

/// One turn of a receive with a deadline: a message that waits is taken
/// whatever the time; only an empty channel can time out.
pub open spec fn deadline_step<T>(
    before: ChannelView<T>,
    after: ChannelView<T>,
    deadline: int,
    now: int,
    r: RecvStep<T, RecvTimeoutError>,
) -> bool {
    match r {
        RecvStep::Done(Ok(v)) => {
            &&& before.queue.len() > 0
            &&& v == before.queue[0]
            &&& after == before.after_recv()
        },
        RecvStep::Done(Err(RecvTimeoutError::Disconnected)) => {
            before.queue.len() == 0 && !before.sender_alive() && after == before
        },
        RecvStep::Done(Err(RecvTimeoutError::Timeout)) => {
            before.queue.len() == 0 && before.sender_alive() && now >= deadline && after == before
        },
        RecvStep::Yield => {
            before.queue.len() == 0 && before.sender_alive() && now < deadline && after == before
        },
    }
}

/// The channel after all of `msgs` were sent.
pub open spec fn after_sends<T>(ch: ChannelView<T>, msgs: Seq<T>) -> ChannelView<T>
    decreases msgs.len(),
{
    if msgs.len() == 0 {
        ch
    } else {
        after_sends(ch, msgs.drop_last()).after_send(msgs.last())
    }
}

/// First in, first out: whatever is sent comes out in the order in which it
/// went in, behind what was there before, also across growth.
pub proof fn channel_is_fifo<T>(ch: ChannelView<T>, msgs: Seq<T>)
    ensures
        after_sends(ch, msgs).queue == ch.queue + msgs,
    decreases msgs.len(),
{
    if msgs.len() > 0 {
        channel_is_fifo(ch, msgs.drop_last());
        assert((ch.queue + msgs.drop_last()).push(msgs.last()) =~= ch.queue + msgs);
    } else {
        assert(ch.queue + msgs =~= ch.queue);
    }
}

/// Only its last handle takes an end down, and neither cloning nor giving up a
/// handle touches the messages or the other end: the count of an end follows its
/// handles, and a handle that is cloned and given up again leaves no trace.
pub proof fn last_handle_disconnects<T>(ch: ChannelView<T>)
    requires
        ch.sender_alive(),
        ch.receiver_alive(),
    ensures
        ch.with_senders(1).sender_alive(),
        ch.with_senders(-1).sender_alive() == (ch.senders > 1),
        ch.with_senders(-1).receiver_alive(),
        ch.with_senders(1).with_senders(-1) == ch,
        ch.with_senders(-1).queue == ch.queue,
        ch.with_receivers(1).receiver_alive(),
        ch.with_receivers(-1).receiver_alive() == (ch.receivers > 1),
        ch.with_receivers(-1).sender_alive(),
        ch.with_receivers(1).with_receivers(-1) == ch,
        ch.with_receivers(-1).queue == ch.queue,
{
}

/// A send makes room for its message: the queue never exceeds the capacity,
/// and the capacity never shrinks.
pub proof fn send_keeps_capacity<T>(ch: ChannelView<T>, msg: T)
    requires
        ch.accepts(),
        0 < ch.capacity,
        ch.queue.len() <= ch.capacity,
    ensures
        ch.after_send(msg).queue.len() <= ch.after_send(msg).capacity,
        ch.after_send(msg).capacity >= ch.capacity,
        !ch.unbounded ==> ch.after_send(msg).capacity == ch.capacity,
{
}


/// A new channel is empty and has one handle at each end; one that grows starts
/// with room for 32 messages.
pub proof fn fresh_channel_is_empty<T>(capacity: int, unbounded: bool)
    ensures
        fresh::<T>(capacity, unbounded).queue.len() == 0,
        fresh::<T>(capacity, unbounded).capacity == capacity,
        fresh::<T>(capacity, unbounded).unbounded == unbounded,
        fresh::<T>(capacity, unbounded).senders == 1,
        fresh::<T>(capacity, unbounded).receivers == 1,
        DEFAULT_INIT == 32,
{
}

/// A channel of fixed size takes as many messages as fit, and not one more.
pub proof fn bounded_channel_takes_its_capacity<T>(cap: int, msgs: Seq<T>)
    requires
        0 < cap,
        msgs.len() <= cap,
    ensures
        ({
            let ch = after_sends(fresh::<T>(cap, false), msgs);
            &&& ch.queue == msgs
            &&& ch.capacity == cap
            &&& ch.accepts() <==> msgs.len() < cap
        }),
    decreases msgs.len(),
{
    channel_is_fifo(fresh::<T>(cap, false), msgs);
    assert(Seq::<T>::empty() + msgs =~= msgs);
    lemma_sends_keep_the_ends(fresh::<T>(cap, false), msgs);
    if msgs.len() > 0 {
        bounded_channel_takes_its_capacity(cap, msgs.drop_last());
    }
}

/// Sends change neither the kind of a channel nor its handles.
proof fn lemma_sends_keep_the_ends<T>(ch: ChannelView<T>, msgs: Seq<T>)
    ensures
        after_sends(ch, msgs).unbounded == ch.unbounded,
        after_sends(ch, msgs).senders == ch.senders,
        after_sends(ch, msgs).receivers == ch.receivers,
    decreases msgs.len(),
{
    if msgs.len() > 0 {
        lemma_sends_keep_the_ends(ch, msgs.drop_last());
    }
}

/// When a message can be sent: there is a receiver, and there is room, or room
/// can be made by doubling.
pub proof fn send_needs_receiver_and_room<T>(ch: ChannelView<T>)
    requires
        ch.queue.len() <= ch.capacity,
    ensures
        ch.accepts() ==> ch.receivers > 0,
        ch.receivers > 0 && ch.queue.len() < ch.capacity ==> ch.accepts(),
        ch.receivers > 0 && ch.queue.len() == ch.capacity ==> (ch.accepts() <==> ch.unbounded && 2
            * ch.capacity < usize::MAX),
        ch.full() <==> ch.queue.len() >= ch.capacity,
        ch.sender_alive() <==> ch.senders >= 1,
        ch.receiver_alive() <==> ch.receivers >= 1,
{
}

/// A send puts its message last and touches no other; only a full channel
/// grows, and then to twice its size.
pub proof fn send_appends<T>(ch: ChannelView<T>, msg: T, i: int)
    requires
        0 < ch.capacity,
        ch.queue.len() <= ch.capacity,
    ensures
        ch.after_send(msg).queue.len() == ch.queue.len() + 1,
        ch.after_send(msg).queue.last() == msg,
        0 <= i < ch.queue.len() ==> ch.after_send(msg).queue[i] == ch.queue[i],
        ch.after_send(msg).capacity == if ch.queue.len() == ch.capacity {
            2 * ch.capacity
        } else {
            ch.capacity
        },
        ch.after_send(msg).unbounded == ch.unbounded,
        ch.after_send(msg).senders == ch.senders,
        ch.after_send(msg).receivers == ch.receivers,
{
}

/// A receive takes the first message and lets the others move up; nothing else
/// changes. What is sent through an empty channel is what is received.
pub proof fn receive_takes_the_first<T>(ch: ChannelView<T>, msg: T, i: int)
    requires
        0 < ch.queue.len(),
    ensures
        ch.after_recv().queue.len() == ch.queue.len() - 1,
        0 < i < ch.queue.len() ==> ch.after_recv().queue[i - 1] == ch.queue[i],
        ch.after_recv().capacity == ch.capacity,
        ch.after_recv().unbounded == ch.unbounded,
        ch.after_recv().senders == ch.senders,
        ch.after_recv().receivers == ch.receivers,
        fresh::<T>(ch.capacity, ch.unbounded).after_send(msg).queue[0] == msg,
        fresh::<T>(ch.capacity, ch.unbounded).after_send(msg).after_recv().queue.len() == 0,
{
}

/// Handles come and go without touching what the channel holds or how much.
pub proof fn handles_leave_the_ring_alone<T>(ch: ChannelView<T>, change: int)
    ensures
        ch.with_senders(change).senders == ch.senders + change,
        ch.with_senders(change).receivers == ch.receivers,
        ch.with_senders(change).queue == ch.queue,
        ch.with_senders(change).capacity == ch.capacity,
        ch.with_senders(change).unbounded == ch.unbounded,
        ch.with_receivers(change).receivers == ch.receivers + change,
        ch.with_receivers(change).senders == ch.senders,
        ch.with_receivers(change).queue == ch.queue,
        ch.with_receivers(change).capacity == ch.capacity,
        ch.with_receivers(change).unbounded == ch.unbounded,
{
}

/// A receive with a deadline takes a waiting message even when it is late; an
/// empty channel without a sender is disconnected whatever the time; otherwise
/// the receive waits until the deadline and not longer.
pub proof fn deadline_only_ends_waiting<T>(
    before: ChannelView<T>,
    after: ChannelView<T>,
    deadline: int,
    now: int,
    r: RecvStep<T, RecvTimeoutError>,
)
    requires
        deadline_step(before, after, deadline, now, r),
    ensures
        before.queue.len() > 0 ==> {
            &&& r matches RecvStep::Done(Ok(v)) && v == before.queue[0]
            &&& after.queue == before.queue.skip(1)
        },
        before.queue.len() == 0 ==> after == before,
        before.queue.len() == 0 && before.senders <= 0 ==> {
            r matches RecvStep::Done(Err(e)) && e is Disconnected
        },
        before.queue.len() == 0 && before.senders > 0 && now < deadline ==> r is Yield,
        before.queue.len() == 0 && before.senders > 0 && deadline <= now ==> {
            r matches RecvStep::Done(Err(e)) && e is Timeout
        },
{
}

} // verus!
