//! Binomial-tree broadcast over active messages: the data spreads from the root
//! along the tree of the module `tree`.

use crate::collective::communicator::Communicator;
use crate::collective::error::CollectiveError;
use crate::collective::ucx_backend::am_router::{AmHeader, RecvKey};
use crate::collective::ucx_backend::communicator::UcxCommunicator;
use crate::collective::ucx_backend::model;
use crate::collective::ucx_backend::model::{add_modulo, low16};
use crate::collective::ucx_backend::tree;
use crate::collective::ucx_backend::tree::Role;
use crate::collective::ucx_backend::util::write_piece;
use vstd::arithmetic::power2;
use vstd::prelude::*;

verus! {

/// Phase byte of broadcast headers.
pub const PHASE_BCAST: u8 = 5;

/// The header of what `src` sends in round `round`.
pub open spec fn broadcast_header(src: int, round: int) -> AmHeader {
    AmHeader {
        src: (src % 0x1_0000) as u16,
        step: (round % 0x1_0000) as u16,
        phase: PHASE_BCAST,
        micro_chunk: 0,
    }
}

/// Where a broadcast stands.
pub struct BroadcastView {
    /// This peer.
    pub rank: int,
    /// The number of peers.
    pub size: int,
    /// The rank that the data comes from.
    pub root: int,
    /// Rounds done.
    pub round: nat,
}

impl BroadcastView {
    /// No round is left.
    pub open spec fn finished(self) -> bool {
        power2::pow2(self.round) >= self.size
    }

    /// What this peer does in the current round.
    pub open spec fn role(self) -> Role {
        tree::role(
            tree::logical_rank(self.rank, self.root, self.size),
            self.root,
            self.size,
            self.round,
        )
    }

    /// One more round done.
    pub open spec fn advanced(self) -> BroadcastView {
        BroadcastView { round: self.round + 1, ..self }
    }
}

/// What the caller does in the current round.
#[derive(Copy, Clone, Debug)]
pub enum BroadcastAction {
    /// Send the whole buffer to `to` under `header`.
    Send { to: usize, header: AmHeader },
    /// Receive the whole buffer under `key`.
    Receive { key: RecvKey },
    /// Nothing.
    Idle,
}

/// A broadcast in progress.
pub struct BroadcastFuture {
    rank: usize,
    size: usize,
    root: usize,
    logical: usize,
    round: usize,
    bit: usize,
    done: bool,
}

impl View for BroadcastFuture {
    type V = BroadcastView;

    closed spec fn view(&self) -> BroadcastView {
        BroadcastView {
            rank: self.rank as int,
            size: self.size as int,
            root: self.root as int,
            round: self.round as nat,
        }
    }
}

/// Start a broadcast from `root` among the peers of `comm`.
///
/// A group of one has nothing to do, whatever `root` says; otherwise `root`
/// must be a rank.
pub fn broadcast_typed<E, W, R>(comm: &UcxCommunicator<E, W, R>, root: usize) -> (r: Result<
    BroadcastFuture,
    CollectiveError,
>)
    requires
        comm.rank_view() + comm.size_view() < usize::MAX,
    ensures
        ({
            let n = comm.size_view() as int;
            match r {
                Ok(f) => {
                    &&& f.wf()
                    &&& f@.size == n
                    &&& if n == 1 {
                        f@.finished()
                    } else {
                        &&& root < n
                        &&& f@ == BroadcastView {
                            rank: comm.rank_view() as int,
                            size: n,
                            root: root as int,
                            round: 0,
                        }
                        &&& !f@.finished()
                    }
                },
                Err(CollectiveError::Protocol(m)) => {
                    n != 1 && root >= n && m@ == "broadcast: root out of range"@
                },
                Err(_) => false,
            }
        }),
{
    let n: usize = comm.size();
    let rank: usize = comm.rank();
    proof {
        power2::lemma2_to64();
    }
    if n == 1 {
        return Ok(
            BroadcastFuture { rank, size: n, root: 0, logical: 0, round: 0, bit: 1, done: true },
        );
    }
    if root >= n {
        return Err(CollectiveError::Protocol("broadcast: root out of range"));
    }
    let logical: usize = (rank + n - root) % n;
    Ok(BroadcastFuture { rank, size: n, root, logical, round: 0, bit: 1, done: false })
}

impl BroadcastFuture {
    /// The state is one that a broadcast can be in.
    pub closed spec fn wf(&self) -> bool {
        &&& self.root < self.size
        &&& self.rank + self.size < usize::MAX
        &&& self.size > 1 ==> self.logical == tree::logical_rank(
            self.rank as int,
            self.root as int,
            self.size as int,
        )
        &&& self.logical < self.size
        &&& self.round <= self.bit
        &&& if self.done {
            power2::pow2(self.round as nat) >= self.size
        } else {
            &&& self.bit == power2::pow2(self.round as nat)
            &&& self.bit < self.size
        }
    }

    /// What to do in the current round, or `None` once the data is everywhere.
    /// A rank that this round sends to must be connected.
    pub fn next_action<E, W, R>(&self, comm: &UcxCommunicator<E, W, R>) -> (r: Result<
        Option<BroadcastAction>,
        CollectiveError,
    >)
        requires
            self.wf(),
        ensures
            match r {
                Ok(None) => self@.finished(),
                Ok(Some(BroadcastAction::Send { to, header })) => {
                    &&& !self@.finished()
                    &&& self@.role() == Role::Sender(to as int)
                    &&& comm.connected_to(to as int)
                    &&& header == broadcast_header(self@.rank, self@.round as int)
                },
                Ok(Some(BroadcastAction::Receive { key })) => {
                    &&& !self@.finished()
                    &&& self@.role() matches Role::Receiver(from)
                    &&& key == <RecvKey as vstd::std_specs::convert::FromSpec<
                        AmHeader,
                    >>::from_spec(broadcast_header(from, self@.round as int))
                },
                Ok(Some(BroadcastAction::Idle)) => {
                    !self@.finished() && self@.role() == Role::Bystander
                },
                Err(CollectiveError::Protocol(m)) => {
                    &&& !self@.finished()
                    &&& self@.role() matches Role::Sender(to)
                    &&& !comm.connected_to(to)
                    &&& m@ == "bcast: missing endpoint"@
                },
                Err(_) => false,
            },
    {
        if self.done {
            return Ok(None);
        }
        let n: usize = self.size;
        proof {
            power2::lemma_pow2_pos(self.round as nat);
        }
        if self.logical < self.bit {
            if self.logical < n - self.bit {
                let to: usize = add_modulo(self.logical + self.bit, self.root, n);
                if comm.endpoint(to).is_none() {
                    return Err(CollectiveError::Protocol("bcast: missing endpoint"));
                }
                let header = AmHeader {
                    src: low16(self.rank),
                    step: low16(self.round),
                    phase: PHASE_BCAST,
                    micro_chunk: 0,
                };
                return Ok(Some(BroadcastAction::Send { to, header }));
            }
        } else if self.logical - self.bit < self.bit {
            let from: usize = add_modulo(self.logical - self.bit, self.root, n);
            let header = AmHeader {
                src: low16(from),
                step: low16(self.round),
                phase: PHASE_BCAST,
                micro_chunk: 0,
            };
            return Ok(Some(BroadcastAction::Receive { key: RecvKey::from(header) }));
        }
        Ok(Some(BroadcastAction::Idle))
    }

    /// Go on to the next round, having sent or idled.
    pub fn advance(&mut self)
        requires
            old(self).wf(),
            !old(self)@.finished(),
        ensures
            final(self).wf(),
            final(self)@ == old(self)@.advanced(),
    {
        proof {
            power2::lemma_pow2_pos(self.round as nat);
            power2::lemma_pow2_unfold((self.round + 1) as nat);
            model::lemma_pow2_exceeds(self.round as nat);
        }
        if self.bit < self.size - self.bit {
            self.bit = self.bit * 2;
        } else {
            self.done = true;
        }
        self.round = self.round + 1;
    }

    /// Store the data that arrived and go on to the next round.
    pub fn complete<T: Copy>(&mut self, buf: &mut [T], received: &[T])
        requires
            old(self).wf(),
            !old(self)@.finished(),
            old(buf)@.len() == received@.len(),
        ensures
            final(self).wf(),
            final(self)@ == old(self)@.advanced(),
            final(buf)@ == received@,
    {
        write_piece(buf, 0, received);
        assert(buf@ =~= received@);
        self.advance();
    }
}


/// A broadcast goes on round by round until `2^rounds` ranks cover the group,
/// and not longer; every rank then holds what the root held.
pub proof fn finished_broadcast_has_delivered<T>(at: BroadcastView, inputs: Seq<Seq<T>>)
    requires
        at.size == inputs.len(),
        0 <= at.root < at.size,
        0 <= at.rank < at.size,
    ensures
        at.finished() <==> power2::pow2(at.round) >= inputs.len(),
        at.finished() ==> tree::broadcast_state(inputs, at.root, at.rank, at.round)
            == inputs[at.root],
        at.advanced() == (BroadcastView { round: at.round + 1, ..at }),
{
    if at.finished() {
        tree::broadcast_delivers(inputs, at.root, at.rank, at.round);
    }
}

/// In every round a receiver waits for the very message that its sender sends;
/// the header names the sender and the round, in a phase of its own.
pub proof fn broadcast_messages_meet(at: BroadcastView, from: int)
    requires
        0 <= at.root < at.size,
        0 <= at.rank < at.size,
        at.role() == Role::Receiver(from),
    ensures
        0 <= from < at.size,
        (BroadcastView { rank: from, ..at }).role() == Role::Sender(at.rank),
        ({
            let header = broadcast_header(from, at.round as int);
            &&& header.src == from % 0x1_0000
            &&& header.step == at.round % 0x1_0000
            &&& header.phase == 5
            &&& header.micro_chunk == 0
        }),
{
    tree::broadcast_roles_match(at.rank, at.root, at.size, at.round);
}

} // verus!
