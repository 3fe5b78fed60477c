//! Scatter over active messages: the root sends every other rank its chunk,
//! all at once, and keeps its own.

use crate::collective::communicator::Communicator;
use crate::collective::error::CollectiveError;
use crate::collective::ucx_backend::am_router::{AmHeader, RecvKey};
use crate::collective::ucx_backend::communicator::UcxCommunicator;
use crate::collective::ucx_backend::model;
use crate::collective::ucx_backend::model::low16;
use crate::collective::ucx_backend::util::write_piece;
use vstd::prelude::*;

verus! {

/// Phase byte of scatter headers, distinct from the ring's (0 and 1).
pub const PHASE_SCATTER: u8 = 2;

/// The header of everything that `root` scatters.
pub open spec fn scatter_header(root: int) -> AmHeader {
    AmHeader {
        src: (root % 0x1_0000) as u16,
        step: (root % 0x1_0000) as u16,
        phase: PHASE_SCATTER,
        micro_chunk: 0,
    }
}

/// The chunk of `send` that rank `r` gets.
pub open spec fn chunk_for<T>(send: Seq<T>, chunk: int, r: int) -> Seq<T> {
    model::piece(send, r * chunk, chunk)
}

/// One message of the root: `len` elements of the send buffer from `off` on,
/// to `to`.
#[derive(Copy, Clone, Debug)]
pub struct ScatterSend {
    pub to: usize,
    pub off: usize,
    pub len: usize,
}

/// The messages of the root, in rank order: every rank below `upto` but the
/// root.
pub open spec fn sends_upto(upto: int, root: int, chunk: int) -> Seq<(int, int, int)>
    decreases upto,
{
    if upto <= 0 {
        Seq::empty()
    } else if upto - 1 == root {
        sends_upto(upto - 1, root, chunk)
    } else {
        sends_upto(upto - 1, root, chunk).push((upto - 1, (upto - 1) * chunk, chunk))
    }
}

/// The plain content of a list of messages.
pub open spec fn sends_view(sends: Seq<ScatterSend>) -> Seq<(int, int, int)> {
    Seq::new(
        sends.len(),
        |i: int| (sends[i].to as int, sends[i].off as int, sends[i].len as int),
    )
}

/// What is left of a scatter once it has started.
pub enum ScatterFuture {
    /// Nothing: a group of one.
    Done,
    /// The root sends these messages, all under `header`, and has finished once
    /// all are sent.
    Send { header: AmHeader, sends: Vec<ScatterSend> },
    /// Any other rank receives its chunk under `key` and hands it to
    /// `complete`.
    Receive { key: RecvKey },
}

/// Every rank but the root is connected.
pub open spec fn peers_connected<E, W, R>(
    comm: &UcxCommunicator<E, W, R>,
    upto: int,
    root: int,
) -> bool {
    forall|r: int| 0 <= r < upto && r != root ==> #[trigger] comm.connected_to(r)
}

/// Start a scatter from `root` among the peers of `comm`. The root's own chunk
/// is copied at once.
///
/// `root` must be a rank. The root needs a send buffer of one chunk per rank,
/// the chunk being as long as the receive buffer, and a connection to every
/// other rank.
pub fn scatter_typed<T: Copy, E, W, R>(
    comm: &UcxCommunicator<E, W, R>,
    send_buf: Option<&[T]>,
    recv_buf: &mut [T],
    root: usize,
) -> (r: Result<ScatterFuture, CollectiveError>)
    ensures
        ({
            let n = comm.size_view() as int;
            let at_root = n == 1 || comm.rank_view() == root;
            let chunk = old(recv_buf)@.len() as int;
            let fits = send_buf matches Some(sb) && sb@.len() == chunk * n;
            let connected = n == 1 || peers_connected(comm, n, root as int);
            let before = old(recv_buf)@;
            let after = final(recv_buf)@;
            match r {
                Ok(ScatterFuture::Done) => {
                    &&& root < n
                    &&& n == 1
                    &&& fits
                    &&& after == chunk_for(send_buf->0@, chunk, root as int)
                },
                Ok(ScatterFuture::Send { header, sends }) => {
                    &&& root < n
                    &&& n > 1
                    &&& at_root
                    &&& fits
                    &&& connected
                    &&& header == scatter_header(root as int)
                    &&& sends_view(sends@) == sends_upto(n, root as int, chunk)
                    &&& after == chunk_for(send_buf->0@, chunk, root as int)
                },
                Ok(ScatterFuture::Receive { key }) => {
                    &&& root < n
                    &&& !at_root
                    &&& key == <RecvKey as vstd::std_specs::convert::FromSpec<
                        AmHeader,
                    >>::from_spec(scatter_header(root as int))
                    &&& after == before
                },
                Err(CollectiveError::Protocol(m)) => {
                    if root >= n {
                        m@ == "scatter: root out of range"@ && after == before
                    } else {
                        &&& at_root
                        &&& if send_buf is None {
                            m@ == "scatter: send_buf required at root"@ && after == before
                        } else {
                            &&& fits
                            &&& !connected
                            &&& m@ == "scatter: missing endpoint"@
                            &&& after == chunk_for(send_buf->0@, chunk, root as int)
                        }
                    }
                },
                Err(CollectiveError::BadShape) => {
                    &&& root < n
                    &&& at_root
                    &&& send_buf is Some
                    &&& !fits
                    &&& after == before
                },
                Err(_) => false,
            }
        }),
        final(recv_buf)@.len() == old(recv_buf)@.len(),
        r matches Ok(started) && !(started is Receive) ==> {
            let chunk = old(recv_buf)@.len() as int;
            forall|i: int|
                0 <= i < chunk ==> #[trigger] final(recv_buf)@[i] == send_buf->0@[root * chunk + i]
        },
{
    let n: usize = comm.size();
    let rank: usize = comm.rank();
    if root >= n {
        return Err(CollectiveError::Protocol("scatter: root out of range"));
    }
    let chunk: usize = recv_buf.len();
    if n > 1 && rank != root {
        let header = AmHeader {
            src: low16(root),
            step: low16(root),
            phase: PHASE_SCATTER,
            micro_chunk: 0,
        };
        return Ok(ScatterFuture::Receive { key: RecvKey::from(header) });
    }
    let sb = match send_buf {
        Some(sb) => sb,
        None => {
            return Err(CollectiveError::Protocol("scatter: send_buf required at root"));
        },
    };
    let total: usize = sb.len();
    proof {
        vstd::arithmetic::div_mod::lemma_fundamental_div_mod(total as int, n as int);
        assert(chunk * n == n * chunk) by (nonlinear_arith);
        if total == chunk * n {
            vstd::arithmetic::div_mod::lemma_fundamental_div_mod_converse(
                total as int,
                n as int,
                chunk as int,
                0,
            );
        }
    }
    if total / n != chunk || total % n != 0 {
        return Err(CollectiveError::BadShape);
    }
    proof {
        model::lemma_block_inside(root as int, n as int, chunk as int);
    }
    let off: usize = root * chunk;
    write_piece(recv_buf, 0, vstd::slice::slice_subrange(sb, off, off + chunk));
    assert(recv_buf@ =~= chunk_for(sb@, chunk as int, root as int));
    if n == 1 {
        return Ok(ScatterFuture::Done);
    }
    let header = AmHeader {
        src: low16(root),
        step: low16(root),
        phase: PHASE_SCATTER,
        micro_chunk: 0,
    };
    let mut sends: Vec<ScatterSend> = Vec::new();
    let mut r: usize = 0;
    while r < n
        invariant
            r <= n,
            root < n,
            n == comm.size_view(),
            chunk * n == total == n * chunk,
            peers_connected(comm, r as int, root as int),
            sends_view(sends@) == sends_upto(r as int, root as int, chunk as int),
            send_buf == Some(sb),
            sb@.len() == total,
            chunk == old(recv_buf)@.len(),
            recv_buf@ == chunk_for(sb@, chunk as int, root as int),
            recv_buf@.len() == chunk,
            n > 1,
            rank == root,
            rank == comm.rank_view(),
        decreases n - r,
    {
        if r != root {
            if comm.endpoint(r).is_none() {
                return Err(CollectiveError::Protocol("scatter: missing endpoint"));
            }
            proof {
                model::lemma_block_inside(r as int, n as int, chunk as int);
            }
            let ghost listed = sends_view(sends@);
            sends.push(ScatterSend { to: r, off: r * chunk, len: chunk });
            assert(sends_view(sends@) =~= listed.push((r as int, r * chunk, chunk as int)));
        }
        r += 1;
    }
    Ok(ScatterFuture::Send { header, sends })
}

impl ScatterFuture {
    /// Store the chunk that arrived.
    pub fn complete<T: Copy>(self, recv_buf: &mut [T], received: &[T])
        requires
            self is Receive,
            old(recv_buf)@.len() == received@.len(),
        ensures
            final(recv_buf)@ == received@,
    {
        write_piece(recv_buf, 0, received);
        assert(recv_buf@ =~= received@);
    }
}

/// The messages of the root carry to every other rank exactly its chunk: rank
/// `r` is sent `send[r * chunk .. (r + 1) * chunk]`, once.
pub proof fn scatter_serves_every_rank(n: int, root: int, chunk: int, r: int)
    requires
        0 <= root < n,
        0 <= r < n,
        r != root,
    ensures
        sends_upto(n, root, chunk).contains((r, r * chunk, chunk)),
        forall|i: int, j: int|
            0 <= i < j < sends_upto(n, root, chunk).len() ==> #[trigger] sends_upto(
                n,
                root,
                chunk,
            )[i].0 < #[trigger] sends_upto(n, root, chunk)[j].0,
        forall|i: int|
            0 <= i < sends_upto(n, root, chunk).len() ==> {
                let m = #[trigger] sends_upto(n, root, chunk)[i];
                0 <= m.0 < n && m.0 != root && m.1 == m.0 * chunk && m.2 == chunk
            },
{
    lemma_sends_upto(n, root, chunk);
    lemma_sends_contain(n, root, chunk, r);
}

/// The chunk of rank `r` is the `r`-th block of the send buffer, element by
/// element.
pub proof fn chunk_is_the_ranks_block<T>(send: Seq<T>, n: int, chunk: int, r: int)
    requires
        0 <= chunk,
        send.len() == n * chunk,
        0 <= r < n,
    ensures
        chunk_for(send, chunk, r).len() == chunk,
        forall|i: int|
            0 <= i < chunk ==> #[trigger] chunk_for(send, chunk, r)[i] == send[r * chunk + i],
{
    model::lemma_block_inside(r, n, chunk);
}

/// A scatter hands out the whole send buffer: every element of it stands in the
/// chunk of exactly one rank, at its place there.
pub proof fn chunks_cover_the_buffer<T>(send: Seq<T>, n: int, chunk: int, p: int)
    requires
        0 < chunk,
        send.len() == n * chunk,
        0 <= p < send.len(),
    ensures
        0 <= p / chunk < n,
        chunk_for(send, chunk, p / chunk)[p % chunk] == send[p],
{
    model::lemma_block_index(p, n, chunk);
    vstd::arithmetic::div_mod::lemma_fundamental_div_mod(p, chunk);
    vstd::arithmetic::div_mod::lemma_mod_bound(p, chunk);
    chunk_is_the_ranks_block(send, n, chunk, p / chunk);
    assert((p / chunk) * chunk == chunk * (p / chunk)) by (nonlinear_arith);
    assert(chunk_for(send, chunk, p / chunk)[p % chunk] == send[(p / chunk) * chunk + p % chunk]);
}

/// One message goes to every rank but the root, in rank order: as many as there
/// are other ranks, the `i`-th to rank `i` or, from the root on, to rank `i + 1`.
pub proof fn scatter_sends_one_each(n: int, root: int, chunk: int)
    requires
        0 <= root < n,
    ensures
        sends_upto(n, root, chunk).len() == n - 1,
        forall|i: int|
            #![trigger sends_upto(n, root, chunk)[i]]
            0 <= i < n - 1 ==> {
                let r = if i < root {
                    i
                } else {
                    i + 1
                };
                sends_upto(n, root, chunk)[i] == (r, r * chunk, chunk)
            },
{
    lemma_sends_listed(n, root, chunk);
}

/// The messages to the first ranks, one by one.
proof fn lemma_sends_listed(upto: int, root: int, chunk: int)
    requires
        0 <= upto,
        0 <= root,
    ensures
        sends_upto(upto, root, chunk).len() == if upto <= root {
            upto
        } else {
            upto - 1
        },
        forall|i: int|
            #![trigger sends_upto(upto, root, chunk)[i]]
            0 <= i < sends_upto(upto, root, chunk).len() ==> {
                let r = if i < root {
                    i
                } else {
                    i + 1
                };
                sends_upto(upto, root, chunk)[i] == (r, r * chunk, chunk)
            },
    decreases upto,
{
    if upto > 0 {
        lemma_sends_listed(upto - 1, root, chunk);
        let all = sends_upto(upto, root, chunk);
        let front = sends_upto(upto - 1, root, chunk);
        assert forall|i: int|
            #![trigger all[i]]
            0 <= i < all.len() implies {
            let r = if i < root {
                i
            } else {
                i + 1
            };
            all[i] == (r, r * chunk, chunk)
        } by {
            if i < front.len() {
                assert(all[i] == front[i]);
            }
        }
    }
}

/// The header of a scatter names its root and the scatter phase, and nothing
/// else.
pub proof fn scatter_header_names_the_root(root: int)
    requires
        0 <= root,
    ensures
        scatter_header(root).src == root % 0x1_0000,
        scatter_header(root).step == root % 0x1_0000,
        scatter_header(root).phase == 2,
        scatter_header(root).micro_chunk == 0,
{
}

/// The messages go out in rank order, each with its rank's chunk.
proof fn lemma_sends_upto(upto: int, root: int, chunk: int)
    ensures
        forall|i: int, j: int|
            0 <= i < j < sends_upto(upto, root, chunk).len() ==> #[trigger] sends_upto(
                upto,
                root,
                chunk,
            )[i].0 < #[trigger] sends_upto(upto, root, chunk)[j].0,
        forall|i: int|
            0 <= i < sends_upto(upto, root, chunk).len() ==> {
                let m = #[trigger] sends_upto(upto, root, chunk)[i];
                0 <= m.0 < upto && m.0 != root && m.1 == m.0 * chunk && m.2 == chunk
            },
    decreases upto,
{
    if upto > 0 {
        lemma_sends_upto(upto - 1, root, chunk);
        let all = sends_upto(upto, root, chunk);
        let front = sends_upto(upto - 1, root, chunk);
        assert forall|i: int| 0 <= i < all.len() implies {
            let m = #[trigger] all[i];
            0 <= m.0 < upto && m.0 != root && m.1 == m.0 * chunk && m.2 == chunk
        } by {
            if i < front.len() {
                assert(all[i] == front[i]);
            }
        }
        assert forall|i: int, j: int| 0 <= i < j < all.len() implies #[trigger] all[i].0
            < #[trigger] all[j].0 by {
            assert(all[i] == front[i]);
            if j < front.len() {
                assert(all[j] == front[j]);
            }
        }
    }
}

/// No rank but the root is left out.
proof fn lemma_sends_contain(upto: int, root: int, chunk: int, r: int)
    requires
        0 <= r < upto,
        r != root,
    ensures
        sends_upto(upto, root, chunk).contains((r, r * chunk, chunk)),
    decreases upto,
{
    let all = sends_upto(upto, root, chunk);
    if r == upto - 1 {
        assert(all.last() == (r, r * chunk, chunk));
    } else {
        lemma_sends_contain(upto - 1, root, chunk, r);
        let front = sends_upto(upto - 1, root, chunk);
        let i = choose|i: int| 0 <= i < front.len() && front[i] == (r, r * chunk, chunk);
        assert(all[i] == (r, r * chunk, chunk));
    }
}


/// The root is connected if it holds an endpoint to every rank but itself.
pub proof fn connected_root_reaches_everyone<E, W, R>(
    comm: &UcxCommunicator<E, W, R>,
    n: int,
    root: int,
)
    ensures
        peers_connected(comm, n, root) <==> forall|r: int|
            0 <= r < n && r != root ==> r < comm.endpoint_slots().len()
                && #[trigger] comm.endpoint_slots()[r] is Some,
{
    if peers_connected(comm, n, root) {
        assert forall|r: int| 0 <= r < n && r != root implies r < comm.endpoint_slots().len()
            && #[trigger] comm.endpoint_slots()[r] is Some by {
            assert(comm.connected_to(r));
        }
    }
    if forall|r: int|
        0 <= r < n && r != root ==> r < comm.endpoint_slots().len()
            && #[trigger] comm.endpoint_slots()[r] is Some {
        assert forall|r: int| 0 <= r < n && r != root implies #[trigger] comm.connected_to(r) by {
            let slot = comm.endpoint_slots()[r];
        }
    }
}

/// The plain content of a list of messages is that of each, in order.
pub proof fn sends_view_is_in_order(sends: Seq<ScatterSend>, i: int)
    ensures
        sends_view(sends).len() == sends.len(),
        0 <= i < sends.len() ==> ({
            let (to, off, len) = sends_view(sends)[i];
            to == sends[i].to && off == sends[i].off && len == sends[i].len
        }),
{
}

} // verus!
