//! The binomial tree along which a broadcast spreads, and what holds of it.
//!
//! Ranks are counted from the root on, so that the root is logical rank 0. In
//! round `r` the first `2^r` logical ranks hold the data, and each of them
//! passes it to the one `2^r` further on.

use crate::collective::ucx_backend::model;
use vstd::arithmetic::power2;
use vstd::prelude::*;

verus! {

/// A rank's distance from the root.
pub open spec fn logical_rank(rank: int, root: int, n: int) -> int {
    (rank + n - root) % n
}

/// The rank at a distance from the root.
pub open spec fn rank_of(logical: int, root: int, n: int) -> int {
    (logical + root) % n
}

/// What a rank does in a round.
pub enum Role {
    /// Pass the data to this rank.
    Sender(int),
    /// Take the data from this rank.
    Receiver(int),
    /// Nothing.
    Bystander,
}

/// What the rank at distance `logical` does in round `round`.
pub open spec fn role(logical: int, root: int, n: int, round: nat) -> Role {
    let bit = power2::pow2(round) as int;
    if logical < bit {
        if logical + bit < n {
            Role::Sender(rank_of(logical + bit, root, n))
        } else {
            Role::Bystander
        }
    } else if logical < 2 * bit {
        Role::Receiver(rank_of(logical - bit, root, n))
    } else {
        Role::Bystander
    }
}

/// The buffer of `rank` after `k` rounds in which every receiver stored what
/// its sender held after as many rounds.
pub open spec fn broadcast_state<T>(
    inputs: Seq<Seq<T>>,
    root: int,
    rank: int,
    k: nat,
) -> Seq<T>
    decreases k,
{
    let n = inputs.len() as int;
    if k == 0 {
        inputs[rank]
    } else {
        let j = (k - 1) as nat;
        match role(logical_rank(rank, root, n), root, n, j) {
            Role::Receiver(from) => broadcast_state(inputs, root, from, j),
            _ => broadcast_state(inputs, root, rank, j),
        }
    }
}

/// Distance and rank are inverse to each other.
proof fn lemma_logical_inverse(x: int, root: int, n: int)
    requires
        0 <= x < n,
        0 <= root < n,
    ensures
        0 <= logical_rank(x, root, n) < n,
        0 <= rank_of(x, root, n) < n,
        logical_rank(rank_of(x, root, n), root, n) == x,
        rank_of(logical_rank(x, root, n), root, n) == x,
{
    model::lemma_wrap(x + n - root, n);
    model::lemma_wrap(x + root, n);
    model::lemma_wrap((x + root) % n + n - root, n);
    model::lemma_wrap((x + n - root) % n + root, n);
}

/// Whoever waits for a message in a round is sent it in that round, by the
/// rank that it waits for; and whoever is sent a message waits for it.
pub proof fn broadcast_roles_match(rank: int, root: int, n: int, round: nat)
    requires
        0 <= rank < n,
        0 <= root < n,
    ensures
        role(logical_rank(rank, root, n), root, n, round) matches Role::Receiver(from) ==> {
            &&& 0 <= from < n
            &&& role(logical_rank(from, root, n), root, n, round) == Role::Sender(rank)
        },
        role(logical_rank(rank, root, n), root, n, round) matches Role::Sender(to) ==> {
            &&& 0 <= to < n
            &&& role(logical_rank(to, root, n), root, n, round) == Role::Receiver(rank)
        },
{
    let logical = logical_rank(rank, root, n);
    let bit = power2::pow2(round) as int;
    power2::lemma_pow2_pos(round);
    lemma_logical_inverse(rank, root, n);
    if logical < bit {
        if logical + bit < n {
            lemma_logical_inverse(logical + bit, root, n);
        }
    } else if logical < 2 * bit {
        lemma_logical_inverse(logical - bit, root, n);
    }
}

/// The round in which the rank at distance `logical` receives: that of its
/// highest bit.
proof fn lemma_receiving_round(logical: int, k: nat) -> (round: nat)
    requires
        0 < logical < power2::pow2(k),
    ensures
        round < k,
        power2::pow2(round) <= logical < 2 * power2::pow2(round),
    decreases k,
{
    power2::lemma2_to64();
    power2::lemma_pow2_unfold(k);
    let j = (k - 1) as nat;
    if logical < power2::pow2(j) {
        lemma_receiving_round(logical, j)
    } else {
        j
    }
}

/// Every rank but the root receives exactly once before the broadcast is
/// finished, and the root never does.
pub proof fn broadcast_receives_once(rank: int, root: int, n: int, k: nat)
    requires
        0 <= rank < n,
        0 <= root < n,
        power2::pow2(k) >= n,
    ensures
        rank != root ==> exists|r: nat|
            r < k && #[trigger] role(logical_rank(rank, root, n), root, n, r) is Receiver,
        forall|r: nat, s: nat|
            #[trigger] role(logical_rank(rank, root, n), root, n, r) is Receiver && (
            #[trigger] role(logical_rank(rank, root, n), root, n, s)) is Receiver ==> r == s,
        rank == root ==> forall|r: nat|
            !(#[trigger] role(logical_rank(rank, root, n), root, n, r) is Receiver),
{
    let logical = logical_rank(rank, root, n);
    model::lemma_wrap(rank + n - root, n);
    if rank != root {
        let r = lemma_receiving_round(logical, k);
        assert(role(logical, root, n, r) is Receiver);
    } else {
        assert forall|r: nat| !(#[trigger] role(logical, root, n, r) is Receiver) by {
            power2::lemma_pow2_pos(r);
        }
    }
    assert forall|r: nat, s: nat|
        #[trigger] role(logical, root, n, r) is Receiver && (#[trigger] role(
            logical,
            root,
            n,
            s,
        )) is Receiver implies r == s by {
        power2::lemma_pow2_unfold(r + 1);
        power2::lemma_pow2_unfold(s + 1);
        if r + 1 < s {
            power2::lemma_pow2_strictly_increases(r + 1, s);
        } else if s + 1 < r {
            power2::lemma_pow2_strictly_increases(s + 1, r);
        }
    }
}

/// After `k` rounds the first `2^k` logical ranks hold the root's data.
pub proof fn broadcast_reaches<T>(inputs: Seq<Seq<T>>, root: int, rank: int, k: nat)
    requires
        0 <= root < inputs.len(),
        0 <= rank < inputs.len(),
        logical_rank(rank, root, inputs.len() as int) < power2::pow2(k),
    ensures
        broadcast_state(inputs, root, rank, k) == inputs[root],
    decreases k,
{
    let n = inputs.len() as int;
    lemma_logical_inverse(rank, root, n);
    if k == 0 {
        power2::lemma2_to64();
        model::lemma_wrap(0 + root, n);
    } else {
        let j = (k - 1) as nat;
        let bit = power2::pow2(j) as int;
        power2::lemma_pow2_unfold(k);
        let logical = logical_rank(rank, root, n);
        if logical < bit {
            broadcast_reaches(inputs, root, rank, j);
        } else {
            lemma_logical_inverse(logical - bit, root, n);
            broadcast_reaches(inputs, root, rank_of(logical - bit, root, n), j);
        }
    }
}

/// A finished broadcast has delivered the root's data to every rank.
pub proof fn broadcast_delivers<T>(inputs: Seq<Seq<T>>, root: int, rank: int, k: nat)
    requires
        0 <= root < inputs.len(),
        0 <= rank < inputs.len(),
        power2::pow2(k) >= inputs.len(),
    ensures
        broadcast_state(inputs, root, rank, k) == inputs[root],
{
    lemma_logical_inverse(rank, root, inputs.len() as int);
    broadcast_reaches(inputs, root, rank, k);
}

/// How many of the first `m` logical ranks send in round `round`.
pub open spec fn senders_among(m: int, root: int, n: int, round: nat) -> int
    decreases m,
{
    if m <= 0 {
        0
    } else {
        senders_among(m - 1, root, n, round) + if role(m - 1, root, n, round) is Sender {
            1int
        } else {
            0
        }
    }
}

/// The messages of the first `k` rounds together.
pub open spec fn messages_sent(root: int, n: int, k: nat) -> int
    decreases k,
{
    if k == 0 {
        0
    } else {
        messages_sent(root, n, (k - 1) as nat) + senders_among(n, root, n, (k - 1) as nat)
    }
}

/// The senders of a round are its first logical ranks.
proof fn lemma_senders_among(m: int, root: int, n: int, round: nat)
    requires
        0 <= m <= n,
    ensures
        ({
            let bit = power2::pow2(round) as int;
            let all = if bit >= n {
                0
            } else if bit < n - bit {
                bit
            } else {
                n - bit
            };
            senders_among(m, root, n, round) == if m < all {
                m
            } else {
                all
            }
        }),
    decreases m,
{
    power2::lemma_pow2_pos(round);
    if m > 0 {
        lemma_senders_among(m - 1, root, n, round);
    }
}

/// After `k` rounds one message has been sent for every logical rank below
/// `2^k` but the root: a finished broadcast has sent `n - 1`.
pub proof fn broadcast_sends_once_per_rank(root: int, n: int, k: nat)
    requires
        0 < n,
    ensures
        messages_sent(root, n, k) == if power2::pow2(k) < n {
            power2::pow2(k) - 1
        } else {
            n - 1
        },
    decreases k,
{
    power2::lemma2_to64();
    if k > 0 {
        let j = (k - 1) as nat;
        power2::lemma_pow2_unfold(k);
        power2::lemma_pow2_pos(j);
        broadcast_sends_once_per_rank(root, n, j);
        lemma_senders_among(n, root, n, j);
    }
}


/// Who takes part in a round, counted from the root on: the ranks that are
/// nearer than `2^round` pass the data on by that distance, as far as there is
/// a rank there; those that are further, but less than twice as far, take it.
pub proof fn roles_double_the_reach(rank: int, root: int, n: int, round: nat, distance: int)
    requires
        0 <= root < n,
        0 <= distance < n,
        rank == if root + distance < n {
            root + distance
        } else {
            root + distance - n
        },
    ensures
        ({
            let bit = power2::pow2(round) as int;
            let part = role(logical_rank(rank, root, n), root, n, round);
            &&& part is Sender <==> distance < bit && distance + bit < n
            &&& part is Receiver <==> bit <= distance < 2 * bit
            &&& part matches Role::Sender(to) ==> to == if rank + bit < n {
                rank + bit
            } else {
                rank + bit - n
            }
            &&& part matches Role::Receiver(from) ==> rank == if from + bit < n {
                from + bit
            } else {
                from + bit - n
            }
        }),
{
    let bit = power2::pow2(round) as int;
    power2::lemma_pow2_pos(round);
    model::lemma_wrap(rank + n - root, n);
    if distance < bit && distance + bit < n {
        model::lemma_wrap(distance + bit + root, n);
    }
    if bit <= distance < 2 * bit {
        model::lemma_wrap(distance - bit + root, n);
    }
}

} // verus!
