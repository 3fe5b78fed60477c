# Pluvio

Pluvio is a single-threaded asynchronous runtime with reactors for timers, UCX
workers and MPI requests, and collective communication (allreduce, scatter,
allgather, broadcast) on top of it. Its core is written in Verus: every
function states what it does in `requires` and `ensures`, and Verus proves it.
The exception are the calls into `slab`, which keeps the tasks and the UCX
workers: the contracts of the twelve wrappers around them, in
`src/runtime/executor/pool.rs` and `src/ucx/reactor.rs`, are believed.

## Layout

- `src/` is the verified core. It decides; it does no I/O and reads no clock.
  - `runtime` - tasks, their queues (`executor::spsc`), the task pool
    (`executor::pool`), the loop that drives them (`executor::event_loop`) and
    what holds of it over time (`executor::rounds`), statistics, `select`, and
    track ids for traces.
  - `timer` - timers in order of their deadlines, and delays.
  - `ucx` - the state of UCX workers and the reactor that progresses them.
  - `collective` - reduction operators, the UCX collectives (ring, pipelined
    ring, recursive doubling, Bruck, binomial tree, scatter), the router of
    active messages, the rendezvous of the ranks, and the MPI requests.
  - `text` - numbers and names as text.
- `app/` performs what the core decides: futures and wakers, clocks, sockets,
  environment variables, UCX and MPI.
- `tests/` runs the core on concrete values; the collectives run there with all
  ranks of a group in one process.

Functions that wait in between - an allreduce, the event loop, the rendezvous -
are state machines: one call names the next action, the caller performs it and
reports back by another.

## Laws

What holds of several functions together stands in `src/` as public proof
functions, beside the functions that they speak of. Some of them:

- `ring_allreduce_agrees`, `ring_allreduce_reduces`,
  `pipelined_ring_equals_ring`, `recursive_doubling_reduces`,
  `algorithms_agree`: every allreduce leaves every rank with the reduction over
  all ranks.
- `bruck_gathers`, `broadcast_delivers`, `broadcast_receives_once`,
  `scatter_serves_every_rank`: what the other collectives leave behind.
- `arrival_order_does_not_matter`, `delivery_is_local`: the router.
- `timers_fire_exactly_when_due`, `timer_count_follows_history`: no timer fires
  before its deadline, none that is due is left, and none is lost.
- `channel_is_fifo`, `last_handle_disconnects`: what is sent comes out in order,
  also across growth, and an end is gone with its last handle.
- `all_ranks_get_one_table`: the rendezvous of the ranks.
- `future_keeps_its_track`, `tracks_stay_apart`: the tracks of futures.
- `queued_task_is_polled`, `queued_polling_task_is_polled`,
  `loop_comes_to_its_end`, `loop_ends_for_its_reason`,
  `exclusive_reactor_is_polled_alone`: the event loop.
- `first_future_goes_first`: `select`.
- `counter_follows_workers`: the UCX reactor runs exactly as long as a worker is
  active or waiting.

## Environment

| Variable | Meaning | Default |
| --- | --- | --- |
| `PLUVIO_MAX_STUCK_ITERATIONS` | rounds without progress before a loop gives up | 1000000 |
| `PLUVIO_RETAIN_TASK_STATS` | `1` or `true` keeps the statistics of finished tasks | off |
| `PLUVIO_CONNECTION_TIMEOUT` | seconds that a connection may take | 30 |
| `PLUVIO_COLL_RANK`, `PLUVIO_COLL_SIZE` | rank and size of the group; OpenMPI's and PMI's variables serve too | - |
| `PLUVIO_COLL_ROOT_HOST`, `PLUVIO_COLL_ROOT_PORT` | where rank 0 listens | `localhost`, 13337 |
