//! Workers, their reactor, and the MPI requests.

use pluvio::collective::communicator::Communicator;
use pluvio::collective::error::CollectiveError;
use pluvio::collective::mpi_backend::allgather::AllgatherFuture;
use pluvio::collective::mpi_backend::allreduce::AllreduceFuture;
use pluvio::collective::mpi_backend::broadcast::BroadcastFuture;
use pluvio::collective::mpi_backend::communicator::MpiCommunicator;
use pluvio::collective::mpi_backend::reactor::MpiReactor;
use pluvio::collective::mpi_backend::request::{count_of, RequestFuture, RequestStep};
use pluvio::collective::mpi_backend::scatter::ScatterFuture;
use pluvio::runtime::reactor::ReactorStatus;
use pluvio::runtime::task::Poll;
use pluvio::ucx::reactor::{
    connection_timeout_secs, stats_header, stats_line, ReactorStats, UCXReactor,
};
use pluvio::ucx::stats::{is_stats_enabled, set_stats_enabled, StatsFlag};
use pluvio::ucx::worker::{Operation, Worker, WorkerState};
use std::rc::Rc;

#[test]
fn workers_are_progressed_by_id() {
    let mut reactor = UCXReactor::new(30);
    assert!(reactor.workers_to_progress().is_empty());
    let a = reactor.register_worker(100);
    let b = reactor.register_worker(200);
    let c = reactor.register_worker(300);
    assert_eq!(reactor.workers_to_progress(), [(a, 100), (b, 200), (c, 300)]);
    reactor.unregister_worker(b);
    assert_eq!(reactor.workers_to_progress(), [(a, 100), (c, 300)]);
    let d = reactor.register_worker(400);
    assert_eq!(reactor.workers_to_progress().len(), 3);
    assert!(reactor.workers_to_progress().contains(&(d, 400)));
}

#[test]
fn the_reactor_runs_while_a_worker_is_active_or_waiting() {
    let mut reactor = UCXReactor::new(30);
    let mut a = Worker::new(&mut reactor, 1);
    let mut b = Worker::new(&mut reactor, 2);
    assert_ne!(a.id(), b.id());
    assert_eq!(reactor.status(), ReactorStatus::Stopped);
    a.activate(&mut reactor);
    a.activate(&mut reactor);
    assert_eq!(a.state(), WorkerState::Active);
    assert_eq!(reactor.status(), ReactorStatus::Running);
    b.wait_connect(&mut reactor, 70);
    assert_eq!(b.wait_start_time(), Some(70));
    a.deactivate(&mut reactor, 80);
    assert_eq!(a.state(), WorkerState::Inactive);
    assert_eq!(reactor.status(), ReactorStatus::Running);
    b.deactivate(&mut reactor, 90);
    assert_eq!(b.wait_start_time(), None);
    assert_eq!(reactor.status(), ReactorStatus::Stopped);
    b.deactivate(&mut reactor, 91);
    assert_eq!(reactor.status(), ReactorStatus::Stopped);
}

#[test]
fn listeners_and_streams_keep_a_worker_waiting() {
    let mut reactor = UCXReactor::new(30);
    let mut w = Worker::new(&mut reactor, 1);
    w.listener_created(&mut reactor, "127.0.0.1:9".into(), 5);
    assert_eq!((w.state(), w.wait_start_time()), (WorkerState::WaitConnect, Some(5)));
    w.am_stream(7);
    w.am_stream(7);
    w.activate(&mut reactor);
    w.listener_created(&mut reactor, "127.0.0.1:9".into(), 6);
    assert_eq!(w.state(), WorkerState::Active);
    w.deactivate(&mut reactor, 8);
    assert_eq!((w.state(), w.wait_start_time()), (WorkerState::WaitConnect, Some(8)));
    w.listener_dropped(&mut reactor, &"127.0.0.1:9".to_string(), 9);
    assert_eq!((w.state(), w.wait_start_time()), (WorkerState::WaitConnect, Some(9)));
    w.am_stream_dropped(&mut reactor, 8, 10);
    assert_eq!(w.state(), WorkerState::WaitConnect);
    w.am_stream_dropped(&mut reactor, 7, 11);
    assert_eq!((w.state(), w.wait_start_time()), (WorkerState::Inactive, None));
    assert_eq!(reactor.status(), ReactorStatus::Stopped);
}

#[test]
fn operations_set_the_state_around_them() {
    let mut reactor = UCXReactor::new(30);
    let mut w = Worker::new(&mut reactor, 1);
    for (op, during, after) in [
        (Operation::Transfer, WorkerState::Active, WorkerState::Inactive),
        (Operation::AwaitMessage, WorkerState::WaitConnect, WorkerState::Inactive),
        (Operation::Passive, WorkerState::Inactive, WorkerState::Inactive),
        (Operation::ActiveMessage, WorkerState::Active, WorkerState::Active),
    ] {
        w.begin(&mut reactor, op, 3);
        assert_eq!(w.state(), during);
        w.end(&mut reactor, op, 4);
        assert_eq!(w.state(), after);
    }
    assert_eq!(reactor.status(), ReactorStatus::Running);
    w.am_stream(1);
    w.begin(&mut reactor, Operation::AwaitMessage, 5);
    w.end(&mut reactor, Operation::AwaitMessage, 6);
    assert_eq!((w.state(), w.wait_start_time()), (WorkerState::WaitConnect, Some(6)));
}

#[test]
fn poll_intervals_are_recorded_in_microseconds() {
    let mut reactor = UCXReactor::new(30);
    assert_eq!(reactor.record_poll(1), None);
    assert_eq!(reactor.stats_len(), 0);
    reactor.enable_stats(true);
    assert_eq!(reactor.record_poll(5_000), None);
    assert_eq!(reactor.record_poll(12_999), Some(7));
    assert_eq!(reactor.stats_len(), 2);
    reactor.disable_stats();
    assert_eq!(reactor.record_poll(20_000), None);
    assert_eq!(reactor.stats_len(), 0);
    let mut silent = ReactorStats::new(false);
    silent.record(0);
    assert_eq!(silent.record(5_000), None);
    assert_eq!(silent.len(), 2);
    assert_eq!(stats_header(), "interval_us");
    assert_eq!(stats_line(120), "120");
}

#[test]
fn connection_timeout_comes_from_its_variable() {
    assert_eq!(connection_timeout_secs(None), 30);
    assert_eq!(connection_timeout_secs(Some("5")), 5);
    assert_eq!(connection_timeout_secs(Some("5s")), 30);
}

#[test]
fn statistics_are_switched() {
    let mut flag = StatsFlag::new();
    assert!(!is_stats_enabled(&flag));
    set_stats_enabled(&mut flag, true);
    assert!(is_stats_enabled(&flag));
}

#[test]
fn a_pass_tests_every_request_once() {
    let mut reactor: MpiReactor<u32, char, &str> = MpiReactor::new();
    assert_eq!(reactor.status(), ReactorStatus::Stopped);
    for (i, w) in ['a', 'b', 'c', 'd'].into_iter().enumerate() {
        reactor.register(i as u32, w, "slot");
    }
    assert_eq!(reactor.status(), ReactorStatus::Running);
    let mut i = 0;
    let mut tested = Vec::new();
    let mut woken = Vec::new();
    while let Some(req) = reactor.request_mut(i) {
        tested.push(*req);
        let flag = if *req % 2 == 0 { 1 } else { 0 };
        *req += 10;
        let (next, done) = reactor.tested(i, flag);
        if let Some(entry) = done {
            woken.push((entry.req, entry.waker));
        }
        i = next;
    }
    tested.sort();
    assert_eq!(tested, [0, 1, 2, 3]);
    assert_eq!(woken, [(10, 'a'), (12, 'c')]);
    assert_eq!(reactor.pending_count(), 2);
}

#[test]
fn a_request_starts_once_and_stays_done() {
    let mut f = RequestFuture::new();
    assert_eq!(f.next_step(), RequestStep::Start);
    assert!(matches!(f.started(17), Poll::Ready(Err(CollectiveError::Mpi(17)))));
    assert_eq!(f.next_step(), RequestStep::Start);
    assert!(matches!(f.started(0), Poll::Pending));
    assert_eq!(f.next_step(), RequestStep::Check);
    assert!(matches!(f.checked(false), Poll::Pending));
    assert!(matches!(f.checked(true), Poll::Ready(Ok(()))));
    assert_eq!(f.next_step(), RequestStep::Ready);
}

#[test]
fn counts_are_the_low_bits() {
    assert_eq!(count_of(0), 0);
    assert_eq!(count_of(0x7fff_ffff), i32::MAX);
    assert_eq!(count_of(0x8000_0000), i32::MIN);
    assert_eq!(count_of(0x1_0000_0005), 5);
}

#[test]
fn mpi_calls_check_their_shapes() {
    assert_eq!(AllreduceFuture::new(&[1u32; 5]).count, 5);
    let b = BroadcastFuture::new(&[1u32; 3], 2);
    assert_eq!((b.count, b.root), (3, 2));
    let g = AllgatherFuture::new(&[1u32; 2], &[0; 6], 3).unwrap();
    assert_eq!((g.send_count, g.recv_count), (2, 2));
    assert!(matches!(
        AllgatherFuture::new(&[1u32; 2], &[0; 5], 3),
        Err(CollectiveError::BadShape)
    ));
    let s = ScatterFuture::new(Some(&[1u32; 6]), &[0; 2], 1, 1, 3).unwrap();
    assert_eq!((s.send_count, s.recv_count, s.root, s.uses_send_buffer), (2, 2, 1, true));
    let s = ScatterFuture::new(None, &[0u32; 2], 1, 0, 3).unwrap();
    assert_eq!((s.send_count, s.recv_count, s.root, s.uses_send_buffer), (0, 2, 1, false));
    assert!(matches!(
        ScatterFuture::new(None, &[0u32; 2], 1, 1, 3),
        Err(CollectiveError::Protocol("scatter: send_buf required at root"))
    ));
    assert!(matches!(
        ScatterFuture::new(Some(&[1u32; 5]), &[0; 2], 1, 1, 3),
        Err(CollectiveError::BadShape)
    ));
}

#[test]
fn the_world_is_what_mpi_says() {
    let comm = MpiCommunicator::world(Rc::new(9u8), (0, 1), (0, 4)).unwrap();
    assert_eq!((comm.rank(), comm.size(), **comm.reactor()), (1, 4, 9));
    assert!(matches!(
        MpiCommunicator::world(Rc::new(()), (3, 0), (4, 0)),
        Err(CollectiveError::Mpi(3))
    ));
    assert!(matches!(
        MpiCommunicator::world(Rc::new(()), (0, 0), (4, 0)),
        Err(CollectiveError::Mpi(4))
    ));
}
