//! What the address exchanges of all ranks come to together: one table, with
//! the address of each rank at its place.

use crate::collective::ucx_backend::bootstrap;
use crate::collective::ucx_backend::bootstrap::{ExchangeView, Stage};
use vstd::prelude::*;

verus! {

/// The exchange after `k` reads off `stream`, and what is left of the stream;
/// `None` if it does not ask for as many, if the stream ends before, or if it
/// fails.
pub open spec fn after_reads(x: ExchangeView, stream: Seq<u8>, k: nat) -> Option<
    (ExchangeView, Seq<u8>),
>
    decreases k,
{
    if k == 0 {
        Some((x, stream))
    } else {
        match after_reads(x, stream, (k - 1) as nat) {
            Some((y, rest)) => match y.wanted() {
                Some(len) => if len <= rest.len() {
                    match y.after_read(rest.take(len)) {
                        Some(z) => Some((z, rest.skip(len))),
                        None => None,
                    }
                } else {
                    None
                },
                None => None,
            },
            None => None,
        }
    }
}

/// Rank 0 after it has accepted a connection and read what the peer says.
pub open spec fn after_peer(x: ExchangeView, stream: Seq<u8>) -> ExchangeView {
    let (y, _) = after_reads(x.after_done()->0, stream, 3)->0;
    y
}

/// The exchange after `k` actions other than reads.
pub open spec fn after_actions(x: ExchangeView, k: nat) -> ExchangeView
    decreases k,
{
    if k == 0 {
        x
    } else {
        after_actions(x, (k - 1) as nat).after_done()->0
    }
}

/// `x` is the exchange of rank 0 of a group of `n` before it listens.
pub open spec fn is_root_start(x: ExchangeView, n: int, own: Seq<u8>) -> bool {
    &&& x.rank == 0
    &&& x.size == n
    &&& x.own == own
    &&& x.stage == Stage::Bind
    &&& x.accepted == 0
    &&& x.addresses == Seq::new(
        n as nat,
        |i: int|
            if i == 0 {
                own
            } else {
                Seq::<u8>::empty()
            },
    )
}

/// `x` is the exchange of another rank of a group of `n` that is about to
/// connect.
pub open spec fn is_peer_start(x: ExchangeView, rank: int, n: int, own: Seq<u8>) -> bool {
    &&& x.rank == rank
    &&& x.size == n
    &&& x.own == own
    &&& x.stage == Stage::Connect
    &&& x.addresses.len() == 0
}

/// An order in which the ranks `1..n` may reach rank 0.
pub open spec fn is_arrival_order(order: Seq<int>, n: int) -> bool {
    &&& order.len() == n - 1
    &&& order.no_duplicates()
    &&& forall|k: int| 0 <= k < order.len() ==> 0 < #[trigger] order[k] < n
}

/// Rank 0 after the first `k` ranks of `order` have said who they are.
pub open spec fn root_after(
    root: ExchangeView,
    addrs: Seq<Seq<u8>>,
    order: Seq<int>,
    k: nat,
) -> ExchangeView
    decreases k,
{
    if k == 0 {
        root.after_done()->0
    } else {
        let peer = order[k - 1];
        after_peer(
            root_after(root, addrs, order, (k - 1) as nat),
            bootstrap::hello_bytes(peer, addrs[peer]),
        )
    }
}

/// Rank 0 reads a peer's rank and address off its connection, and puts the
/// address in the peer's place.
pub proof fn root_hears_peer(x: ExchangeView, rank: int, addr: Seq<u8>)
    requires
        x.rank == 0,
        x.stage == Stage::Accept,
        0 <= rank < x.size,
        rank < 0x1_0000_0000,
        addr.len() < 0x1_0000_0000,
    ensures
        ({
            let y = after_peer(x, bootstrap::hello_bytes(rank, addr));
            y == ExchangeView {
                stage: if x.accepted + 1 < x.size - 1 {
                    Stage::Accept
                } else {
                    Stage::Reply { to: 1 }
                },
                accepted: x.accepted + 1,
                addresses: x.addresses.update(rank, addr),
                heard: bootstrap::hello_bytes(rank, addr),
                ..x
            }
        }),
{
    reveal_with_fuel(after_reads, 4);
    let s = bootstrap::hello_bytes(rank, addr);
    let x0 = x.after_done()->0;
    bootstrap::word_reads_back(rank);
    bootstrap::word_reads_back(addr.len() as int);
    assert(s.take(4) =~= bootstrap::word_bytes(rank));
    let s1 = s.skip(4);
    assert(s1.take(4) =~= bootstrap::word_bytes(addr.len() as int));
    let s2 = s1.skip(4);
    assert(s2.take(addr.len() as int) =~= addr);
    let y = after_peer(x, s);
    assert(y.heard =~= s);
}

/// After any ranks have arrived, each of them has its address in its place,
/// and rank 0 still waits for the others.
proof fn lemma_root_after(root: ExchangeView, addrs: Seq<Seq<u8>>, order: Seq<int>, k: nat)
    requires
        is_root_start(root, addrs.len() as int, addrs[0]),
        1 < addrs.len() < 0x1_0000_0000,
        bootstrap::lengths_fit(addrs),
        is_arrival_order(order, addrs.len() as int),
        k <= order.len(),
    ensures
        ({
            let x = root_after(root, addrs, order, k);
            &&& x.rank == 0
            &&& x.size == addrs.len()
            &&& x.accepted == k
            &&& x.stage == if k < order.len() {
                Stage::Accept
            } else {
                Stage::Reply { to: 1 }
            }
            &&& x.addresses.len() == addrs.len()
            &&& x.addresses[0] == addrs[0]
            &&& forall|j: int|
                0 <= j < k ==> x.addresses[#[trigger] order[j]] == addrs[order[j]]
        }),
    decreases k,
{
    if k > 0 {
        let j = (k - 1) as nat;
        lemma_root_after(root, addrs, order, j);
        let peer = order[j as int];
        assert(addrs[peer].len() < 0x1_0000_0000);
        root_hears_peer(root_after(root, addrs, order, j), peer, addrs[peer]);
        assert forall|i: int| 0 <= i < k implies root_after(
            root,
            addrs,
            order,
            k,
        ).addresses[#[trigger] order[i]] == addrs[order[i]] by {
            if i < j {
                assert(order[i] != order[j as int]);
            }
        }
    }
}

/// Every rank but the first arrives.
proof fn lemma_everyone_arrives(order: Seq<int>, n: int, rank: int)
    requires
        is_arrival_order(order, n),
        0 < rank < n,
    ensures
        exists|k: int| 0 <= k < order.len() && #[trigger] order[k] == rank,
{
    if forall|k: int| 0 <= k < order.len() ==> #[trigger] order[k] != rank {
        let seen = order.to_set();
        let others = vstd::set_lib::set_int_range(1, n).remove(rank);
        vstd::set_lib::lemma_int_range(1, n);
        order.unique_seq_to_set();
        assert forall|r: int| seen.contains(r) implies others.contains(r) by {
            let k = choose|k: int| 0 <= k < order.len() && order[k] == r;
            assert(0 < order[k] < n);
        }
        vstd::set_lib::lemma_len_subset(seen, others);
        assert(false);
    }
}

/// Rank 0 ends with the address of every rank in its place, in whatever order
/// the ranks arrive, and with the same table for everyone.
pub proof fn root_collects_addresses(root: ExchangeView, addrs: Seq<Seq<u8>>, order: Seq<int>)
    requires
        is_root_start(root, addrs.len() as int, addrs[0]),
        1 < addrs.len() < 0x1_0000_0000,
        bootstrap::lengths_fit(addrs),
        is_arrival_order(order, addrs.len() as int),
    ensures
        ({
            let x = root_after(root, addrs, order, order.len());
            &&& x.stage == Stage::Reply { to: 1 }
            &&& x.size == addrs.len()
            &&& x.addresses == addrs
        }),
{
    lemma_root_after(root, addrs, order, order.len());
    let x = root_after(root, addrs, order, order.len());
    assert forall|r: int| 0 <= r < addrs.len() implies x.addresses[r] == addrs[r] by {
        if r > 0 {
            lemma_everyone_arrives(order, addrs.len() as int, r);
            let k = choose|k: int| 0 <= k < order.len() && #[trigger] order[k] == r;
            assert(x.addresses[order[k]] == addrs[order[k]]);
        }
    }
    assert(x.addresses =~= addrs);
}

/// Rank 0 answers the other ranks one after the other, each with the same
/// table, and is done after the last.
pub proof fn root_answers_everyone(x: ExchangeView, k: nat)
    requires
        x.stage == (Stage::Reply { to: 1 }),
        1 < x.size <= usize::MAX,
        k < x.size,
    ensures
        after_actions(x, k) == (ExchangeView {
            stage: if k + 1 < x.size {
                Stage::Reply { to: (k + 1) as usize }
            } else {
                Stage::Done
            },
            ..x
        }),
    decreases k,
{
    if k > 0 {
        root_answers_everyone(x, (k - 1) as nat);
    }
}

/// The frames of a list begin with those of its front.
proof fn lemma_frames_front(list: Seq<Seq<u8>>, i: int)
    requires
        0 <= i <= list.len(),
    ensures
        bootstrap::begins_with(
            bootstrap::frames_bytes(list),
            bootstrap::frames_bytes(list.take(i)),
        ),
    decreases list.len() - i,
{
    let all = bootstrap::frames_bytes(list);
    if i == list.len() {
        assert(list.take(i) =~= list);
        assert(all.take(all.len() as int) =~= all);
    } else {
        lemma_frames_front(list, i + 1);
        let longer = bootstrap::frames_bytes(list.take(i + 1));
        let front = bootstrap::frames_bytes(list.take(i));
        assert(list.take(i + 1).drop_last() =~= list.take(i));
        assert(longer.take(front.len() as int) =~= front);
        assert(all.take(front.len() as int) =~= all.take(longer.len() as int).take(
            front.len() as int,
        ));
    }
}

/// The count and the first `i` addresses of a table on the wire.
spec fn table_front(list: Seq<Seq<u8>>, i: int) -> Seq<u8> {
    bootstrap::word_bytes(list.len() as int) + bootstrap::frames_bytes(list.take(i))
}

/// Behind the first `i` addresses of a table stands the next one, framed.
proof fn lemma_next_frame(list: Seq<Seq<u8>>, i: int)
    requires
        0 <= i < list.len(),
    ensures
        ({
            let addr = list[i];
            let word = bootstrap::word_bytes(addr.len() as int);
            let rest = bootstrap::table_bytes(list).skip(table_front(list, i).len() as int);
            &&& 4 + addr.len() <= rest.len()
            &&& rest.take(4) == word
            &&& rest.skip(4).take(addr.len() as int) == addr
            &&& rest.skip(4).skip(addr.len() as int) == bootstrap::table_bytes(list).skip(
                table_front(list, i + 1).len() as int,
            )
            &&& table_front(list, i + 1) == table_front(list, i) + word + addr
        }),
{
    let addr = list[i];
    let word = bootstrap::word_bytes(addr.len() as int);
    let table = bootstrap::table_bytes(list);
    let frames = bootstrap::frames_bytes(list);
    let front = bootstrap::frames_bytes(list.take(i));
    let longer = bootstrap::frames_bytes(list.take(i + 1));
    assert(list.take(i + 1).drop_last() =~= list.take(i));
    assert(longer == front + bootstrap::frame_bytes(addr));
    lemma_frames_front(list, i + 1);
    let rest = table.skip(table_front(list, i).len() as int);
    assert forall|b: int| 0 <= b < 4 + addr.len() implies #[trigger] rest[b]
        == bootstrap::frame_bytes(addr)[b] by {
        assert(rest[b] == frames[front.len() + b]);
        assert(frames[front.len() + b] == frames.take(longer.len() as int)[front.len() + b]);
        assert(longer[front.len() + b] == bootstrap::frame_bytes(addr)[b]);
    }
    assert(rest.take(4) =~= word);
    assert(rest.skip(4).take(addr.len() as int) =~= addr);
    assert(rest.skip(4).skip(addr.len() as int) =~= table.skip(
        table_front(list, i + 1).len() as int,
    ));
    assert(table_front(list, i + 1) =~= table_front(list, i) + word + addr);
}

/// Two reads, of a length and of an address, off a stream that goes on with
/// them.
proof fn lemma_reads_frame(
    x: ExchangeView,
    stream: Seq<u8>,
    k: nat,
    y: ExchangeView,
    rest: Seq<u8>,
    addr: Seq<u8>,
)
    requires
        after_reads(x, stream, k) == Some((y, rest)),
        y.stage == Stage::TableLen,
        addr.len() < 0x1_0000_0000,
        4 + addr.len() <= rest.len(),
        rest.take(4) == bootstrap::word_bytes(addr.len() as int),
        rest.skip(4).take(addr.len() as int) == addr,
    ensures
        after_reads(x, stream, k + 2) == Some(
            (
                ExchangeView {
                    addresses: y.addresses.push(addr),
                    stage: if y.addresses.len() + 1 < y.size {
                        Stage::TableLen
                    } else {
                        Stage::Done
                    },
                    heard: y.heard + bootstrap::word_bytes(addr.len() as int) + addr,
                    ..y
                },
                rest.skip(4).skip(addr.len() as int),
            ),
        ),
{
    let word = bootstrap::word_bytes(addr.len() as int);
    bootstrap::word_reads_back(addr.len() as int);
    let z = y.after_read(word)->0;
    assert(z.stage == (Stage::TableAddr { len: addr.len() as usize }));
    assert(after_reads(x, stream, k + 1) == Some((z, rest.skip(4))));
    assert(rest.skip(4).len() == rest.len() - 4);
    assert(after_reads(x, stream, k + 2) == Some(
        (z.after_read(addr)->0, rest.skip(4).skip(addr.len() as int)),
    ));
}

/// Another rank after it has read the count and the first `i` addresses.
proof fn lemma_peer_reads(x: ExchangeView, list: Seq<Seq<u8>>, i: nat)
    requires
        x.stage == Stage::TableCount,
        x.heard.len() == 0,
        x.addresses.len() == 0,
        x.size == list.len(),
        0 < list.len() < 0x1_0000_0000,
        bootstrap::lengths_fit(list),
        i <= list.len(),
    ensures
        after_reads(x, bootstrap::table_bytes(list), 1 + 2 * i) == Some(
            (
                ExchangeView {
                    stage: if i < list.len() {
                        Stage::TableLen
                    } else {
                        Stage::Done
                    },
                    addresses: list.take(i as int),
                    heard: table_front(list, i as int),
                    ..x
                },
                bootstrap::table_bytes(list).skip(table_front(list, i as int).len() as int),
            ),
        ),
    decreases i,
{
    let n = list.len() as int;
    let table = bootstrap::table_bytes(list);
    if i == 0 {
        bootstrap::word_reads_back(n);
        assert(after_reads(x, table, 0) == Some((x, table)));
        assert(table.take(4) =~= bootstrap::word_bytes(n));
        let (y, _) = after_reads(x, table, 1)->0;
        assert(bootstrap::frames_bytes(list.take(0)) =~= Seq::<u8>::empty());
        assert(y.heard =~= table_front(list, 0));
        assert(y.addresses =~= list.take(0));
    } else {
        let j = (i - 1) as nat;
        lemma_peer_reads(x, list, j);
        let (y, rest) = after_reads(x, table, 1 + 2 * j)->0;
        let addr = list[j as int];
        assert(addr.len() < 0x1_0000_0000);
        lemma_next_frame(list, j as int);
        lemma_reads_frame(x, table, 1 + 2 * j, y, rest, addr);
        assert(1 + 2 * j + 2 == 1 + 2 * i);
        assert(list.take(i as int) =~= list.take(j as int).push(addr));
    }
}

/// A rank that has connected, said who it is and is sent a table ends with that
/// table.
pub proof fn peer_gets_table(x: ExchangeView, rank: int, own: Seq<u8>, list: Seq<Seq<u8>>)
    requires
        is_peer_start(x, rank, list.len() as int, own),
        0 < list.len() < 0x1_0000_0000,
        bootstrap::lengths_fit(list),
    ensures
        after_actions(x, 1).stage == Stage::Hello,
        ({
            let asked = after_actions(x, 2);
            let end = after_reads(
                asked,
                bootstrap::table_bytes(list),
                (1 + 2 * list.len()) as nat,
            );
            &&& end matches Some((y, rest))
            &&& y.stage == Stage::Done
            &&& y.addresses == list
            &&& rest.len() == 0
        }),
{
    reveal_with_fuel(after_actions, 3);
    let asked = after_actions(x, 2);
    lemma_peer_reads(asked, list, list.len());
    assert(list.take(list.len() as int) =~= list);
}

/// A rank that is sent a count other than the size of its group fails.
pub proof fn other_count_fails(x: ExchangeView, list: Seq<Seq<u8>>)
    requires
        x.stage == Stage::TableCount,
        list.len() < 0x1_0000_0000,
        x.size != list.len(),
    ensures
        after_reads(x, bootstrap::table_bytes(list), 1) is None,
        x.after_read(bootstrap::table_bytes(list).take(4)) is None,
{
    reveal_with_fuel(after_reads, 2);
    bootstrap::word_reads_back(list.len() as int);
    assert(bootstrap::table_bytes(list).take(4) =~= bootstrap::word_bytes(list.len() as int));
}

/// All ranks of a group end their exchange with one table, in which the address
/// of each rank stands at its place, in whatever order the ranks reach rank 0.
pub proof fn all_ranks_get_one_table(
    root: ExchangeView,
    peers: Seq<ExchangeView>,
    addrs: Seq<Seq<u8>>,
    order: Seq<int>,
    rank: int,
)
    requires
        1 < addrs.len() < 0x1_0000_0000,
        bootstrap::lengths_fit(addrs),
        is_root_start(root, addrs.len() as int, addrs[0]),
        is_arrival_order(order, addrs.len() as int),
        0 < rank < addrs.len(),
        is_peer_start(peers[rank], rank, addrs.len() as int, addrs[rank]),
    ensures
        ({
            let collected = root_after(root, addrs, order, order.len());
            let answered = after_actions(collected, (addrs.len() - 1) as nat);
            let table = bootstrap::table_bytes(collected.addresses);
            let got = after_reads(
                after_actions(peers[rank], 2),
                table,
                (1 + 2 * addrs.len()) as nat,
            );
            &&& after_actions(collected, (rank - 1) as nat).stage == (Stage::Reply {
                to: rank as usize,
            })
            &&& after_actions(collected, (rank - 1) as nat).addresses == addrs
            &&& answered.stage == Stage::Done
            &&& answered.addresses == addrs
            &&& got matches Some((y, _))
            &&& y.stage == Stage::Done
            &&& y.addresses == addrs
        }),
{
    root_collects_addresses(root, addrs, order);
    let collected = root_after(root, addrs, order, order.len());
    root_answers_everyone(collected, (rank - 1) as nat);
    root_answers_everyone(collected, (addrs.len() - 1) as nat);
    peer_gets_table(peers[rank], rank, addrs[rank], addrs);
}

/// A rank that is alone in its group has its table as soon as it listens.
pub proof fn lone_rank_has_its_table(root: ExchangeView, own: Seq<u8>)
    requires
        is_root_start(root, 1, own),
    ensures
        after_actions(root, 1).stage == Stage::Done,
        after_actions(root, 1).addresses == seq![own],
{
    reveal_with_fuel(after_actions, 2);
    assert(root.addresses =~= seq![own]);
}

} // verus!
