//! Active-message router: sorts one stream of messages into receive slots, one
//! per `(source, step, phase, micro-chunk)`.
//!
//! A receive registers a slot or consumes an early arrival; the dispatcher
//! hands every message to `deliver`.

use crate::collective::error::CollectiveError;
use crate::collective::ucx_backend::model;
use crate::collective::ucx_backend::tag;
use crate::collective::ucx_backend::tag::encode_tag;
use std::collections::HashMap;
use vstd::prelude::*;

verus! {

/// Header that travels with every collective payload: the source rank, the
/// protocol step and phase, and, for pipelined collectives, the index of the
/// micro-chunk within one ring step.
#[derive(Copy, Clone, Debug, PartialEq, Eq, Hash, Structural)]
pub struct AmHeader {
    pub src: u16,
    pub step: u16,
    pub phase: u8,
    pub micro_chunk: u8,
}

/// The eight bytes of a header: two little-endian halfwords, two bytes, and
/// two reserved zero bytes.
pub open spec fn header_bytes(h: AmHeader) -> Seq<u8> {
    seq![
        (h.src % 0x100) as u8,
        (h.src / 0x100) as u8,
        (h.step % 0x100) as u8,
        (h.step / 0x100) as u8,
        h.phase,
        h.micro_chunk,
        0u8,
        0u8,
    ]
}

/// The header that the first six bytes describe.
pub open spec fn header_of(bytes: Seq<u8>) -> AmHeader {
    AmHeader {
        src: (bytes[0] + 0x100 * bytes[1]) as u16,
        step: (bytes[2] + 0x100 * bytes[3]) as u16,
        phase: bytes[4],
        micro_chunk: bytes[5],
    }
}

impl AmHeader {
    /// Encoded size.
    pub const BYTES: usize = 8;

    /// The header's wire form.
    pub fn encode(self) -> (out: [u8; 8])
        ensures
            out@ == header_bytes(self),
    {
        [
            (self.src % 0x100) as u8,
            (self.src / 0x100) as u8,
            (self.step % 0x100) as u8,
            (self.step / 0x100) as u8,
            self.phase,
            self.micro_chunk,
            0,
            0,
        ]
    }

    /// Read a header off the front of `bytes`; the two reserved bytes and what
    /// follows are ignored.
    pub fn decode(bytes: &[u8]) -> (r: Result<AmHeader, CollectiveError>)
        ensures
            match r {
                Ok(h) => bytes@.len() >= 8 && h == header_of(bytes@),
                Err(CollectiveError::BadHeader { got, expected }) => {
                    &&& bytes@.len() < 8
                    &&& got == bytes@.len()
                    &&& expected == 8
                },
                Err(_) => false,
            },
    {
        if bytes.len() < Self::BYTES {
            return Err(
                CollectiveError::BadHeader { got: bytes.len(), expected: Self::BYTES },
            );
        }
        Ok(
            AmHeader {
                src: bytes[0] as u16 + 0x100 * bytes[1] as u16,
                step: bytes[2] as u16 + 0x100 * bytes[3] as u16,
                phase: bytes[4],
                micro_chunk: bytes[5],
            },
        )
    }
}

/// Decoding gives back the header that was encoded, whatever follows it.
pub proof fn header_roundtrip(h: AmHeader, rest: Seq<u8>)
    ensures
        header_bytes(h).len() == 8,
        header_of(header_bytes(h) + rest) == h,
{
}

/// The wire form of a header, field by field: source and step with their low
/// byte first, phase, micro-chunk, and two zero bytes.
pub proof fn header_has_its_fields(h: AmHeader)
    ensures
        header_bytes(h).len() == 8,
        header_bytes(h)[0] + 256 * header_bytes(h)[1] == h.src,
        header_bytes(h)[2] + 256 * header_bytes(h)[3] == h.step,
        header_bytes(h)[4] == h.phase,
        header_bytes(h)[5] == h.micro_chunk,
        header_bytes(h)[6] == 0,
        header_bytes(h)[7] == 0,
{
}

/// What is read off the wire is the header that stands there: any eight bytes
/// whose last two are zero are the wire form of what is read off them.
pub proof fn read_header_stands_there(bytes: Seq<u8>)
    requires
        bytes.len() >= 8,
    ensures
        header_bytes(header_of(bytes)).take(6) == bytes.take(6),
        header_of(bytes).src == bytes[0] + 256 * bytes[1],
        header_of(bytes).step == bytes[2] + 256 * bytes[3],
        header_of(bytes).phase == bytes[4],
        header_of(bytes).micro_chunk == bytes[5],
{
    assert(header_bytes(header_of(bytes)).take(6) =~= bytes.take(6));
}

/// A header and the key under which its message is received agree on every
/// field.
pub proof fn key_has_the_headers_fields(h: AmHeader)
    ensures
        ({
            let key = <RecvKey as vstd::std_specs::convert::FromSpec<AmHeader>>::from_spec(h);
            &&& key.src == h.src
            &&& key.step == h.step
            &&& key.phase == h.phase
            &&& key.micro_chunk == h.micro_chunk
        }),
{
}

/// What tells two receives apart.
#[derive(Hash, Eq, PartialEq, Copy, Clone, Debug, Structural)]
pub struct RecvKey {
    pub src: u16,
    pub step: u16,
    pub phase: u8,
    pub micro_chunk: u8,
}

impl From<AmHeader> for RecvKey {
    fn from(h: AmHeader) -> (key: RecvKey) {
        RecvKey { src: h.src, step: h.step, phase: h.phase, micro_chunk: h.micro_chunk }
    }
}

impl vstd::std_specs::convert::FromSpecImpl<AmHeader> for RecvKey {
    open spec fn obeys_from_spec() -> bool {
        true
    }

    open spec fn from_spec(h: AmHeader) -> RecvKey {
        RecvKey { src: h.src, step: h.step, phase: h.phase, micro_chunk: h.micro_chunk }
    }
}

impl RecvKey {
    /// The number that stands for the key in the slot table.
    pub open spec fn code_view(self) -> u64 {
        tag::tag_value(
            self.src as int,
            self.step as int,
            self.phase as int,
            self.micro_chunk as int,
        ) as u64
    }

    /// The number that stands for the key in the slot table.
    pub fn code(&self) -> (r: u64)
        ensures
            r == self.code_view(),
    {
        encode_tag(self.src as usize, self.step, self.phase, self.micro_chunk)
    }
}

/// Different keys have different codes.
pub proof fn key_codes_differ(a: RecvKey, b: RecvKey)
    requires
        a != b,
    ensures
        a.code_view() != b.code_view(),
{
    if a.code_view() == b.code_view() {
        tag::tag_distinguishes_messages(
            a.src as int,
            a.step,
            a.phase,
            a.micro_chunk,
            b.src as int,
            b.step,
            b.phase,
            b.micro_chunk,
        );
    }
}

/// A posted receive: the buffer to fill, the handle by which its owner learns
/// of the completion, and the waker of the task that waits.
pub struct PendingRecv<D, W> {
    pub target: Vec<u8>,
    pub done: D,
    pub waker: Option<W>,
}

/// What the router holds for a key.
pub enum Slot<D, W> {
    /// A receive is posted.
    Pending(PendingRecv<D, W>),
    /// The message arrived before its receive; it is kept until one asks.
    Early(Vec<u8>),
}

/// What became of a message.
pub enum Delivery<D, W> {
    /// A posted receive is complete: its filled buffer, its handle and its
    /// waker. `size_mismatch` says that message and buffer differ in length.
    Completed { target: Vec<u8>, done: D, waker: Option<W>, size_mismatch: bool },
    /// No receive was posted; the message is kept.
    Buffered,
    /// A message for this key is kept already; this one is dropped.
    Duplicate,
}

/// `target` with as much of `bytes` as fits copied to its front.
pub open spec fn filled(target: Seq<u8>, bytes: Seq<u8>) -> Seq<u8> {
    model::overwritten(
        target,
        0,
        bytes.take(
            if bytes.len() <= target.len() {
                bytes.len() as int
            } else {
                target.len() as int
            },
        ),
    )
}

/// A message arrives as far as its buffer reaches: the buffer keeps its length
/// and holds the message's bytes in order, and behind a short message what it
/// held before. A message as long as its buffer arrives whole.
pub proof fn message_fills_its_buffer(target: Seq<u8>, bytes: Seq<u8>)
    ensures
        filled(target, bytes).len() == target.len(),
        forall|i: int|
            0 <= i < target.len() ==> #[trigger] filled(target, bytes)[i] == if i < bytes.len() {
                bytes[i]
            } else {
                target[i]
            },
        bytes.len() == target.len() ==> filled(target, bytes) == bytes,
        bytes.len() == 0 ==> filled(target, bytes) == target,
{
    if bytes.len() == target.len() {
        assert(filled(target, bytes) =~= bytes);
    }
    if bytes.len() == 0 {
        assert(filled(target, bytes) =~= target);
    }
}

/// Copy as much of `bytes` as fits to the front of `target`.
fn fill(target: &mut Vec<u8>, bytes: &Vec<u8>)
    ensures
        final(target)@ == filled(old(target)@, bytes@),
{
    let ghost start = target@;
    let len: usize = if bytes.len() <= target.len() {
        bytes.len()
    } else {
        target.len()
    };
    let mut i: usize = 0;
    while i < len
        invariant
            i <= len,
            len <= bytes@.len(),
            len <= start.len(),
            target@ =~= model::overwritten(start, 0, bytes@.take(i as int)),
        decreases len - i,
    {
        target.set(i, bytes[i]);
        i += 1;
    }
}

/// The keys for which a receive is posted.
pub open spec fn pending_keys<D, W>(slots: Map<u64, Slot<D, W>>) -> Set<u64> {
    slots.dom().filter(|k: u64| slots[k] is Pending)
}

/// The slots after a message for `code` has been delivered.
pub open spec fn after_deliver<D, W>(
    slots: Map<u64, Slot<D, W>>,
    code: u64,
    bytes: Vec<u8>,
) -> Map<u64, Slot<D, W>> {
    if !slots.contains_key(code) {
        slots.insert(code, Slot::Early(bytes))
    } else if slots[code] is Pending {
        slots.remove(code)
    } else {
        slots
    }
}

/// Sorts the messages of one stream into per-key slots.
pub struct AmRouter<D, W> {
    slots: HashMap<u64, Slot<D, W>>,
    pending: usize,
}

impl<D, W> View for AmRouter<D, W> {
    type V = Map<u64, Slot<D, W>>;

    closed spec fn view(&self) -> Map<u64, Slot<D, W>> {
        self.slots@
    }
}

impl<D, W> AmRouter<D, W> {
    /// The count of posted receives is right.
    pub closed spec fn wf(&self) -> bool {
        self.pending == pending_keys(self.slots@).len()
    }

    /// A router without slots.
    pub fn new() -> (router: Self)
        ensures
            router.wf(),
            router@ == Map::<u64, Slot<D, W>>::empty(),
    {
        broadcast use vstd::std_specs::hash::group_hash_axioms;

        let router = AmRouter { slots: HashMap::new(), pending: 0 };
        assert(pending_keys(router.slots@) =~= Set::<u64>::empty());
        router
    }

    /// Take the message that arrived early for `key`, if there is one.
    pub fn take_early(&mut self, key: RecvKey) -> (r: Option<Vec<u8>>)
        requires
            old(self).wf(),
        ensures
            final(self).wf(),
            ({
                let code = key.code_view();
                if old(self)@.contains_key(code) && old(self)@[code] is Early {
                    &&& r == Some(old(self)@[code]->Early_0)
                    &&& final(self)@ == old(self)@.remove(code)
                } else {
                    r is None && final(self)@ == old(self)@
                }
            }),
    {
        broadcast use vstd::std_specs::hash::group_hash_axioms;

        let code: u64 = key.code();
        match self.slots.remove(&code) {
            None => {
                assert(self.slots@ =~= old(self).slots@);
                None
            },
            Some(Slot::Early(bytes)) => {
                assert(pending_keys(self.slots@) =~= pending_keys(old(self).slots@));
                Some(bytes)
            },
            Some(slot) => {
                self.slots.insert(code, slot);
                assert(self.slots@ =~= old(self).slots@);
                None
            },
        }
    }

    /// Post a receive. Whoever posts it removes it by `cancel_pending` if it is
    /// given up before it completes.
    pub fn register_pending(&mut self, key: RecvKey, pending: PendingRecv<D, W>)
        requires
            old(self).wf(),
            !old(self)@.contains_key(key.code_view()),
        ensures
            final(self).wf(),
            final(self)@ == old(self)@.insert(key.code_view(), Slot::Pending(pending)),
    {
        broadcast use vstd::std_specs::hash::group_hash_axioms;

        let code: u64 = key.code();
        self.slots.insert(code, Slot::Pending(pending));
        let total: usize = self.slots.len();
        proof {
            let before = pending_keys(old(self).slots@);
            let after = pending_keys(self.slots@);
            assert(after =~= before.insert(code));
            vstd::set_lib::lemma_len_subset(after, self.slots@.dom());
        }
        self.pending = self.pending + 1;
    }

    /// Replace the waker of a posted receive. Nothing happens if the receive
    /// is no longer posted.
    pub fn update_waker(&mut self, key: RecvKey, waker: W)
        requires
            old(self).wf(),
        ensures
            final(self).wf(),
            ({
                let code = key.code_view();
                if old(self)@.contains_key(code) && old(self)@[code] is Pending {
                    final(self)@ == old(self)@.insert(
                        code,
                        Slot::Pending(
                            PendingRecv { waker: Some(waker), ..old(self)@[code]->Pending_0 },
                        ),
                    )
                } else {
                    final(self)@ == old(self)@
                }
            }),
    {
        broadcast use vstd::std_specs::hash::group_hash_axioms;

        let code: u64 = key.code();
        match self.slots.remove(&code) {
            None => {
                assert(self.slots@ =~= old(self).slots@);
            },
            Some(Slot::Pending(p)) => {
                self.slots.insert(
                    code,
                    Slot::Pending(
                        PendingRecv { target: p.target, done: p.done, waker: Some(waker) },
                    ),
                );
                assert(pending_keys(self.slots@) =~= pending_keys(old(self).slots@));
                assert(self.slots@ =~= old(self)@.insert(code, self.slots@[code]));
            },
            Some(slot) => {
                self.slots.insert(code, slot);
                assert(self.slots@ =~= old(self).slots@);
            },
        }
    }

    /// Give up a posted receive. Nothing happens if it is no longer posted.
    pub fn cancel_pending(&mut self, key: RecvKey)
        requires
            old(self).wf(),
        ensures
            final(self).wf(),
            ({
                let code = key.code_view();
                if old(self)@.contains_key(code) && old(self)@[code] is Pending {
                    final(self)@ == old(self)@.remove(code)
                } else {
                    final(self)@ == old(self)@
                }
            }),
    {
        broadcast use vstd::std_specs::hash::group_hash_axioms;

        let code: u64 = key.code();
        match self.slots.remove(&code) {
            None => {
                assert(self.slots@ =~= old(self).slots@);
            },
            Some(Slot::Pending(p)) => {
                proof {
                    lemma_pending_removed(old(self).slots@, code);
                }
                self.pending = self.pending - 1;
            },
            Some(slot) => {
                self.slots.insert(code, slot);
                assert(self.slots@ =~= old(self).slots@);
            },
        }
    }

    /// Hand over a message that arrived for `key`.
    pub fn deliver(&mut self, key: RecvKey, bytes: Vec<u8>) -> (d: Delivery<D, W>)
        requires
            old(self).wf(),
        ensures
            final(self).wf(),
            final(self)@ == after_deliver(old(self)@, key.code_view(), bytes),
            ({
                let code = key.code_view();
                match d {
                    Delivery::Completed { target, done, waker, size_mismatch } => {
                        &&& old(self)@.contains_key(code)
                        &&& old(self)@[code] matches Slot::Pending(p)
                        &&& target@ == filled(p.target@, bytes@)
                        &&& target@.len() == p.target@.len()
                        &&& forall|i: int|
                            0 <= i < target@.len() ==> #[trigger] target@[i] == if i
                                < bytes@.len() {
                                bytes@[i]
                            } else {
                                p.target@[i]
                            }
                        &&& done == p.done
                        &&& waker == p.waker
                        &&& size_mismatch == (p.target@.len() != bytes@.len())
                    },
                    Delivery::Buffered => !old(self)@.contains_key(code),
                    Delivery::Duplicate => {
                        old(self)@.contains_key(code) && old(self)@[code] is Early
                    },
                }
            }),
    {
        broadcast use vstd::std_specs::hash::group_hash_axioms;

        let code: u64 = key.code();
        match self.slots.remove(&code) {
            Some(Slot::Pending(p)) => {
                proof {
                    lemma_pending_removed(old(self).slots@, code);
                }
                self.pending = self.pending - 1;
                let size_mismatch: bool = bytes.len() != p.target.len();
                let mut target: Vec<u8> = p.target;
                fill(&mut target, &bytes);
                Delivery::Completed { target, done: p.done, waker: p.waker, size_mismatch }
            },
            None => {
                self.slots.insert(code, Slot::Early(bytes));
                assert(pending_keys(self.slots@) =~= pending_keys(old(self).slots@));
                assert(self.slots@ =~= after_deliver(old(self)@, code, bytes));
                Delivery::Buffered
            },
            Some(early) => {
                self.slots.insert(code, early);
                assert(self.slots@ =~= old(self).slots@);
                Delivery::Duplicate
            },
        }
    }

    /// Whether a receive is posted for `key`.
    pub fn is_pending(&self, key: RecvKey) -> (r: bool)
        ensures
            r == pending_keys(self@).contains(key.code_view()),
    {
        broadcast use vstd::std_specs::hash::group_hash_axioms;

        let code: u64 = key.code();
        match self.slots.get(&code) {
            Some(Slot::Pending(_)) => true,
            _ => false,
        }
    }

    /// The number of posted receives.
    pub fn pending_count(&self) -> (n: usize)
        requires
            self.wf(),
        ensures
            n == pending_keys(self@).len(),
    {
        self.pending
    }
}

/// Taking a posted receive away lowers the count by one.
proof fn lemma_pending_removed<D, W>(slots: Map<u64, Slot<D, W>>, code: u64)
    requires
        slots.dom().finite(),
        slots.contains_key(code),
        slots[code] is Pending,
    ensures
        pending_keys(slots.remove(code)).len() == pending_keys(slots).len() - 1,
        pending_keys(slots).len() > 0,
{
    assert(pending_keys(slots.remove(code)) =~= pending_keys(slots).remove(code));
}

/// Outcome of polling a receive.
#[derive(Copy, Clone, Debug, PartialEq, Eq, Structural)]
pub enum RecvPoll {
    /// The buffer is filled.
    Ready,
    /// The message has not arrived.
    Pending,
}

/// A receive that waits until the message for its key fills its buffer. It is
/// posted at the first poll, so that an early arrival completes it at once.
pub struct RecvFuture {
    key: RecvKey,
    registered: bool,
    done: bool,
    target: Vec<u8>,
}

impl RecvFuture {
    pub closed spec fn key_view(&self) -> RecvKey {
        self.key
    }

    /// Whether the receive has been posted.
    pub closed spec fn is_registered(&self) -> bool {
        self.registered
    }

    /// Whether the buffer is filled.
    pub closed spec fn is_done(&self) -> bool {
        self.done
    }

    /// The buffer; while the receive is posted, the router has it.
    pub closed spec fn target_view(&self) -> Seq<u8> {
        self.target@
    }

    /// A receive into `target`.
    pub fn new(key: RecvKey, target: Vec<u8>) -> (f: RecvFuture)
        ensures
            f.key_view() == key,
            !f.is_registered(),
            !f.is_done(),
            f.target_view() == target@,
    {
        RecvFuture { key, registered: false, done: false, target }
    }

    /// Poll the receive: take an early arrival, or post the receive under
    /// `handle`, or refresh the waker of the posted one.
    pub fn poll<D, W>(&mut self, router: &mut AmRouter<D, W>, handle: D, waker: W) -> (r: RecvPoll)
        requires
            old(router).wf(),
            !old(self).is_done() && !old(self).is_registered() ==> !pending_keys(
                old(router)@,
            ).contains(old(self).key_view().code_view()),
        ensures
            final(router).wf(),
            final(self).key_view() == old(self).key_view(),
            ({
                let code = old(self).key_view().code_view();
                let slots = old(router)@;
                let early = slots.contains_key(code) && slots[code] is Early;
                let posted = slots.contains_key(code) && slots[code] is Pending;
                if old(self).is_done() {
                    &&& r == RecvPoll::Ready
                    &&& *final(self) == *old(self)
                    &&& final(router)@ == slots
                } else if old(self).is_registered() {
                    &&& r == RecvPoll::Pending
                    &&& *final(self) == *old(self)
                    &&& final(router)@ == if posted {
                        slots.insert(
                            code,
                            Slot::Pending(
                                PendingRecv { waker: Some(waker), ..slots[code]->Pending_0 },
                            ),
                        )
                    } else {
                        slots
                    }
                } else if early {
                    &&& r == RecvPoll::Ready
                    &&& final(self).is_done()
                    &&& !final(self).is_registered()
                    &&& final(self).target_view() == filled(
                        old(self).target_view(),
                        slots[code]->Early_0@,
                    )
                    &&& final(router)@ == slots.remove(code)
                } else {
                    &&& r == RecvPoll::Pending
                    &&& final(self).is_registered()
                    &&& !final(self).is_done()
                    &&& final(self).target_view().len() == 0
                    &&& final(router)@.dom() == slots.dom().insert(code)
                    &&& final(router)@.remove(code) == slots
                    &&& final(router)@[code] matches Slot::Pending(p)
                    &&& p.target@ == old(self).target_view()
                    &&& p.done == handle
                    &&& p.waker == Some(waker)
                }
            }),
    {
        if self.done {
            return RecvPoll::Ready;
        }
        if !self.registered {
            match router.take_early(self.key) {
                Some(bytes) => {
                    fill(&mut self.target, &bytes);
                    self.done = true;
                    return RecvPoll::Ready;
                },
                None => {},
            }
            let mut target: Vec<u8> = Vec::new();
            std::mem::swap(&mut target, &mut self.target);
            router.register_pending(
                self.key,
                PendingRecv { target, done: handle, waker: Some(waker) },
            );
            self.registered = true;
            assert(router@.remove(self.key.code_view()) =~= old(router)@);
            return RecvPoll::Pending;
        }
        router.update_waker(self.key, waker);
        RecvPoll::Pending
    }

    /// The posted receive has completed with this buffer.
    pub fn complete(&mut self, target: Vec<u8>)
        ensures
            final(self).key_view() == old(self).key_view(),
            final(self).is_registered() == old(self).is_registered(),
            final(self).is_done(),
            final(self).target_view() == target@,
    {
        self.target = target;
        self.done = true;
    }

    /// Give the receive up: a posted one that has not completed is taken back.
    pub fn cancel<D, W>(&self, router: &mut AmRouter<D, W>)
        requires
            old(router).wf(),
        ensures
            final(router).wf(),
            ({
                let code = self.key_view().code_view();
                final(router)@ == if self.is_registered() && !self.is_done() && pending_keys(
                    old(router)@,
                ).contains(code) {
                    old(router)@.remove(code)
                } else {
                    old(router)@
                }
            }),
    {
        if self.registered && !self.done {
            router.cancel_pending(self.key);
        }
    }

    /// The buffer of a finished receive.
    pub fn into_target(self) -> (target: Vec<u8>)
        ensures
            target@ == self.target_view(),
    {
        self.target
    }
}

/// A message that arrives before its receive and one that arrives after it
/// leave the same bytes in the buffer and no slot behind.
pub proof fn arrival_order_does_not_matter<D, W>(
    slots: Map<u64, Slot<D, W>>,
    code: u64,
    posted: PendingRecv<D, W>,
    bytes: Vec<u8>,
)
    requires
        !slots.contains_key(code),
    ensures
        ({
            let early = after_deliver(slots, code, bytes);
            let late = slots.insert(code, Slot::Pending(posted));
            &&& early[code] == Slot::<D, W>::Early(bytes)
            &&& early.remove(code) == slots
            &&& after_deliver(late, code, bytes) == slots
            &&& late[code] == Slot::Pending(posted)
            &&& filled(posted.target@, early[code]->Early_0@) == filled(
                late[code]->Pending_0.target@,
                bytes@,
            )
        }),
{
    let early = after_deliver(slots, code, bytes);
    let late = slots.insert(code, Slot::Pending(posted));
    assert(early.remove(code) =~= slots);
    assert(late.remove(code) =~= slots);
}

/// What a delivery does to its own slot: a message without a receive is kept, a
/// posted receive is served and gone, and a message that is kept already stays.
pub proof fn delivery_settles_its_slot<D, W>(
    slots: Map<u64, Slot<D, W>>,
    code: u64,
    bytes: Vec<u8>,
)
    ensures
        ({
            let after = after_deliver(slots, code, bytes);
            &&& !slots.contains_key(code) ==> after.contains_key(code) && after[code]
                == Slot::<D, W>::Early(bytes)
            &&& slots.contains_key(code) && slots[code] is Pending ==> !after.contains_key(code)
            &&& slots.contains_key(code) && slots[code] is Early ==> after.contains_key(code)
                && after[code] == slots[code]
            &&& forall|other: u64|
                other != code ==> #[trigger] after.contains_key(other) == slots.contains_key(other)
                    && (slots.contains_key(other) ==> after[other] == slots[other])
        }),
{
}

/// The keys counted as pending are those under which a receive is posted.
pub proof fn pending_keys_are_posted<D, W>(slots: Map<u64, Slot<D, W>>, code: u64)
    ensures
        pending_keys(slots).contains(code) == (slots.contains_key(code)
            && slots[code] is Pending),
{
}

/// Delivering a message for one key leaves the slots of all other keys alone.
pub proof fn delivery_is_local<D, W>(
    slots: Map<u64, Slot<D, W>>,
    key: RecvKey,
    other: RecvKey,
    bytes: Vec<u8>,
)
    requires
        key != other,
    ensures
        after_deliver(slots, key.code_view(), bytes).contains_key(other.code_view())
            == slots.contains_key(other.code_view()),
        slots.contains_key(other.code_view()) ==> after_deliver(
            slots,
            key.code_view(),
            bytes,
        )[other.code_view()] == slots[other.code_view()],
{
    key_codes_differ(key, other);
}

/// What the dispatcher does with what came off the stream.
#[derive(Copy, Clone, Debug)]
pub enum DispatchStep {
    /// The stream is closed: stop.
    Stop,
    /// The header is too short: skip the message.
    Skip,
    /// Receive the payload, which belongs to this key.
    Receive(RecvKey),
}

/// Decide on the next message of the stream by its header; `None` stands for
/// the end of the stream.
pub fn dispatch_header(header: Option<&[u8]>) -> (step: DispatchStep)
    ensures
        match step {
            DispatchStep::Stop => header is None,
            DispatchStep::Skip => header matches Some(b) && b@.len() < 8,
            DispatchStep::Receive(key) => {
                &&& header matches Some(b)
                &&& b@.len() >= 8
                &&& key == <RecvKey as vstd::std_specs::convert::FromSpec<
                    AmHeader,
                >>::from_spec(header_of(b@))
            },
        },
{
    match header {
        None => DispatchStep::Stop,
        Some(bytes) => match AmHeader::decode(bytes) {
            Ok(h) => DispatchStep::Receive(RecvKey::from(h)),
            Err(_) => DispatchStep::Skip,
        },
    }
}

/// Route a payload of which `received` bytes arrived in `buf`; `None` stands
/// for a failed transfer, which is dropped.
pub fn dispatch_payload<D, W>(
    router: &mut AmRouter<D, W>,
    key: RecvKey,
    buf: Vec<u8>,
    received: Option<usize>,
) -> (d: Option<Delivery<D, W>>)
    requires
        old(router).wf(),
    ensures
        final(router).wf(),
        d is Some <==> received is Some,
        received is None ==> final(router)@ == old(router)@,
        received matches Some(n) ==> exists|bytes: Vec<u8>|
            {
                &&& bytes@ == if n < buf@.len() {
                    buf@.take(n as int)
                } else {
                    buf@
                }
                &&& final(router)@ == #[trigger] after_deliver(
                    old(router)@,
                    key.code_view(),
                    bytes,
                )
                &&& d->0 matches Delivery::Completed { target, done, waker, size_mismatch } ==> {
                    &&& old(router)@.contains_key(key.code_view())
                    &&& old(router)@[key.code_view()] matches Slot::Pending(p)
                    &&& target@ == filled(p.target@, bytes@)
                    &&& done == p.done
                    &&& waker == p.waker
                    &&& size_mismatch == (p.target@.len() != bytes@.len())
                }
                &&& d->0 is Buffered ==> !old(router)@.contains_key(key.code_view())
                &&& d->0 is Duplicate ==> old(router)@.contains_key(key.code_view())
                    && old(router)@[key.code_view()] is Early
            },
{
    match received {
        None => None,
        Some(n) => {
            let mut bytes: Vec<u8> = buf;
            bytes.truncate(n);
            Some(router.deliver(key, bytes))
        },
    }
}

} // verus!
