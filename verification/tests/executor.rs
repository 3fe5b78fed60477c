//! The runtime and its loop, with tasks and reactors played by the test.

use pluvio::runtime::executor::event_loop::{max_stuck_iterations, EventLoop, LoopAction};
use pluvio::runtime::executor::stat::{retain_task_stats, RuntimeStat};
use pluvio::runtime::executor::Runtime;
use pluvio::runtime::reactor::{Reactor, ReactorStatus};
use pluvio::runtime::select::{select, Either, Select2, SelectStep};
use pluvio::runtime::task::stat::TaskStat;
use pluvio::runtime::task::waker::new_waker;
use pluvio::runtime::task::{JoinHandle, Poll, QueueKind, SharedState, Task};
use std::marker::PhantomData;
use std::rc::Rc;

#[test]
fn execute_time_accumulates() {
    let mut stat = TaskStat::new(Some("unit".into()));
    stat.add_execute_time(10);
    stat.add_execute_time(5);
    assert_eq!(stat.get_execute_time(), 15);
}

#[test]
fn elapsed_real_time_returns_duration() {
    let mut stat = TaskStat::new(None);
    assert_eq!(stat.get_elapsed_real_time(), None);
    let start = 1_000_000_000;
    let end = start + 5_000_000;
    stat.set_start_time(start);
    stat.set_end_time(end);
    assert_eq!(stat.get_elapsed_real_time(), Some(end - start));
    // The first times stand.
    stat.set_start_time(7);
    stat.set_end_time(7);
    assert_eq!(stat.get_elapsed_real_time(), Some(end - start));
}

#[test]
fn add_task_stat_records_finished_tasks() {
    let mut stats = RuntimeStat::new();
    let mut slot = Some(Task::new(QueueKind::Regular, Some("unit".into())));
    stats.add_task_stat(Some(&mut slot), retain_task_stats(Some("1")));

    let recorded = &stats.finished_task_stats;
    assert_eq!(recorded.len(), 1);
    assert_eq!(recorded[0].task_name.as_deref(), Some("unit"));
    assert!(!recorded[0].running);
}

#[test]
fn add_task_stat_drops_by_default() {
    let mut stats = RuntimeStat::new();
    let mut slot = Some(Task::new(QueueKind::Regular, Some("unit".into())));
    stats.add_task_stat(Some(&mut slot), retain_task_stats(None));
    assert!(stats.finished_task_stats.is_empty());
    assert!(slot.unwrap().task_stat.is_none());
    let mut empty: Option<Task> = None;
    stats.add_task_stat(Some(&mut empty), true);
    assert!(stats.finished_task_stats.is_empty());
}

#[test]
fn retention_is_asked_for_by_name() {
    for yes in ["1", "true", "TRUE", "tRuE"] {
        assert!(retain_task_stats(Some(yes)));
    }
    for no in ["", "0", "yes", "true ", "11"] {
        assert!(!retain_task_stats(Some(no)));
    }
}

#[test]
fn add_pool_and_completion_time_accumulates() {
    let mut stats = RuntimeStat::new();
    stats.add_pool_and_completion_time(10);
    stats.add_pool_and_completion_time(5);
    assert_eq!(stats.pool_and_completion_time, 15);
}

#[test]
fn add_task_stat_ignores_missing_entry() {
    let mut stats = RuntimeStat::new();
    stats.add_task_stat(None, true);
    assert!(stats.finished_task_stats.is_empty());
}

#[test]
fn test_either_variants() {
    let left: Either<i32, &str> = Either::Left(42);
    let right: Either<i32, &str> = Either::Right("hello");

    assert_eq!(left, Either::Left(42));
    assert_eq!(right, Either::Right("hello"));
}

#[test]
fn select_drops_the_loser() {
    let mut s = select(1, "two");
    assert_eq!(s.begin::<u8, u8>(), SelectStep::PollFirst);
    *s.first().unwrap() += 1;
    assert_eq!(s.after_first::<u8, u8>(Poll::Pending), SelectStep::PollSecond);
    assert_eq!(s.first().copied(), Some(2));
    assert_eq!(s.second().copied(), Some("two"));
    assert_eq!(s.after_second::<u8, u8>(Poll::Pending), SelectStep::Done(Poll::Pending));
    // The next poll begins with the first future again.
    assert_eq!(s.begin::<u8, u8>(), SelectStep::PollFirst);
    assert_eq!(s.after_first::<u8, u8>(Poll::Pending), SelectStep::PollSecond);
    assert_eq!(
        s.after_second::<u8, u8>(Poll::Ready(9)),
        SelectStep::Done(Poll::Ready(Either::Right(9)))
    );
    assert!(s.first().is_none());
    assert!(s.second().is_none());
    assert_eq!(s.begin::<u8, u8>(), SelectStep::Done(Poll::Pending));
}

#[test]
fn of_two_ready_futures_the_first_wins() {
    let mut s = Select2::new((), ());
    assert_eq!(s.begin::<u8, u8>(), SelectStep::PollFirst);
    // Ready at once: the second future is not polled.
    assert_eq!(
        s.after_first::<u8, u8>(Poll::Ready(3)),
        SelectStep::Done(Poll::Ready(Either::Left(3)))
    );
    assert!(s.first().is_none());
    assert!(s.second().is_none());
}

#[test]
fn join_handle_takes_the_result_once() {
    let handle: JoinHandle<u32> = JoinHandle { type_data: PhantomData };
    let mut shared: SharedState<u32, &str> = SharedState::default();
    assert_eq!(handle.poll(&mut shared, "first"), Poll::Pending);
    assert_eq!(handle.poll(&mut shared, "second"), Poll::Pending);
    assert_eq!(shared.complete(5), Some("second"));
    assert_eq!(handle.poll(&mut shared, "third"), Poll::Ready(Ok(5)));
    assert_eq!(handle.poll(&mut shared, "fourth"), Poll::Pending);
    shared.result = Some(Err("lost".to_string()));
    assert_eq!(handle.poll(&mut shared, "fifth"), Poll::Ready(Err("lost".to_string())));
    assert!(SharedState::<u8, u8>::new().waker.is_none());
}

/// Poll task `id` once and say that it is `ready` or not.
fn poll(rt: &mut Runtime, id: usize, now: u128, elapsed: u64, ready: bool) {
    let task = rt.poll_task(id, now).expect("Task not found");
    assert!(rt.poll_task(id, now).is_none(), "a task that is being polled is not there");
    assert!(rt.finish_poll(id, task, now, elapsed, ready));
}

#[test]
fn run_stops_after_simple_spawned_task() {
    let mut rt = Runtime::new(4);
    let a = rt.spawn_with_runtime();
    let b = rt.spawn_with_name_and_runtime("run_stops_after_simple_spawned_task".into());
    assert_ne!(a, b);
    let mut l = EventLoop::run_queue(max_stuck_iterations(None));
    let mut polled = Vec::new();
    for _ in 0..100 {
        match l.step(&mut rt) {
            LoopAction::PollTask { id } => {
                polled.push(id);
                poll(&mut rt, id, 1, 1, true);
                l.task_completed(&mut rt, id, false);
            }
            LoopAction::Finished => {
                assert_eq!(polled, [a, b]);
                assert_eq!(rt.task_count(), 0);
                assert_eq!(l.step(&mut rt), LoopAction::Finished);
                return;
            }
            LoopAction::Continue => {}
            other => panic!("{:?}", other),
        }
    }
    panic!("the loop does not end");
}

#[test]
fn a_round_polls_reactors_then_the_batch_then_one_task() {
    let mut rt = Runtime::new(4);
    let r0 = rt.register_reactor("timer".into());
    let r1 = rt.register_reactor("ucx".into());
    assert_eq!((r0, r1), (0, 1));
    let a = rt.spawn_with_runtime();
    let b = rt.spawn_with_runtime();
    let p = rt.spawn_polling_with_runtime();
    let q = rt.spawn_polling_with_name_and_runtime("poller".into());
    let mut l = EventLoop::run_queue(10);
    let mut seen = Vec::new();
    while seen.len() < 10 {
        match l.step(&mut rt) {
            LoopAction::Continue => {}
            LoopAction::ReadStatus { .. } => l.status_read(ReactorStatus::Running),
            LoopAction::PollReactor { index } => {
                seen.push(format!("reactor {}", index));
                l.reactor_polled(&mut rt, index, 3);
            }
            LoopAction::PollTask { id } => {
                seen.push(format!("task {}", id));
                poll(&mut rt, id, 1, 1, false);
                if id == p {
                    // A task that wakes itself waits for the next batch.
                    rt.wake(new_waker(QueueKind::Polling, p));
                }
            }
            other => panic!("{:?}", other),
        }
    }
    let t = |id: usize| format!("task {}", id);
    let expected: Vec<String> = vec![
        "reactor 0".into(),
        "reactor 1".into(),
        t(p),
        t(q),
        t(a),
        "reactor 0".into(),
        "reactor 1".into(),
        t(p),
        t(b),
        "reactor 0".into(),
    ];
    assert_eq!(seen, expected);
    assert_eq!(rt.reactor_poll_count(1), 2);
    assert_eq!(rt.reactor_poll_count(0), 3);
}

/// The reactors that one round polls, given their statuses.
fn polled_reactors(statuses: &[ReactorStatus]) -> Vec<usize> {
    let mut rt = Runtime::new(1);
    for i in 0..statuses.len() {
        rt.register_reactor(format!("r{}", i));
    }
    let mut l = EventLoop::progress();
    let mut polled = Vec::new();
    loop {
        match l.step(&mut rt) {
            LoopAction::ReadStatus { index } => l.status_read(statuses[index]),
            LoopAction::PollReactor { index } => {
                polled.push(index);
                l.reactor_polled(&mut rt, index, 3);
            }
            LoopAction::Finished => return polled,
            _ => {}
        }
    }
}

#[test]
fn running_reactors_are_polled_and_exclusive_ones_alone() {
    let (run, stop, block) =
        (ReactorStatus::Running, ReactorStatus::Stopped, ReactorStatus::Blocking);
    assert!(polled_reactors(&[]).is_empty());
    assert!(polled_reactors(&[stop, stop]).is_empty());
    assert_eq!(polled_reactors(&[run, stop, run]), [0, 2]);
    assert_eq!(polled_reactors(&[run, block, run, block]), [1]);
}

/// The reactors that one round polls, where a poll of reactor 1 gives the
/// reactors these statuses.
fn polled_with_change(before: &[ReactorStatus], after: &[ReactorStatus]) -> Vec<usize> {
    let mut rt = Runtime::new(1);
    for i in 0..before.len() {
        rt.register_reactor(format!("r{}", i));
    }
    let mut statuses = before.to_vec();
    let mut l = EventLoop::progress();
    let mut polled = Vec::new();
    loop {
        match l.step(&mut rt) {
            LoopAction::ReadStatus { index } => l.status_read(statuses[index]),
            LoopAction::PollReactor { index } => {
                polled.push(index);
                l.reactor_polled(&mut rt, index, 3);
                if index == 1 {
                    statuses = after.to_vec();
                }
            }
            LoopAction::Finished => return polled,
            _ => {}
        }
    }
}

#[test]
fn a_status_is_read_just_before_the_poll() {
    let (run, stop, block) =
        (ReactorStatus::Running, ReactorStatus::Stopped, ReactorStatus::Blocking);
    // Reactor 1 stops reactor 2 and starts reactor 3.
    assert_eq!(polled_with_change(&[run, run, run, stop], &[run, run, stop, run]), [0, 1, 3]);
    // It starts one that has had its turn: that one waits for the next round.
    assert_eq!(polled_with_change(&[stop, run, run], &[run, run, run]), [1, 2]);
    // It makes reactor 2 require exclusive access: reactor 3 is not polled.
    assert_eq!(polled_with_change(&[run, run, run, run], &[run, run, block, run]), [0, 1, 2]);
}

#[test]
fn a_regular_task_waits_for_those_before_it() {
    let mut rt = Runtime::new(4);
    let ids: Vec<usize> = (0..4).map(|_| rt.spawn_with_runtime()).collect();
    let p = rt.spawn_polling_with_runtime();
    let mut l = EventLoop::run_queue(10);
    let mut polled = Vec::new();
    loop {
        match l.step(&mut rt) {
            LoopAction::PollTask { id } => {
                polled.push(id);
                poll(&mut rt, id, 1, 1, true);
                l.task_completed(&mut rt, id, false);
            }
            LoopAction::Finished => break,
            LoopAction::Continue => {}
            a => panic!("{:?}", a),
        }
    }
    assert_eq!(polled, [p, ids[0], ids[1], ids[2], ids[3]]);
    assert_eq!(rt.task_count(), 0);
}

#[test]
fn an_id_without_a_task_is_passed_over() {
    let mut rt = Runtime::new(1);
    let id = rt.spawn_with_runtime();
    rt.wake(new_waker(QueueKind::Regular, id));
    let other = rt.spawn_with_runtime();
    let mut l = EventLoop::run_queue(10);
    let mut polled = Vec::new();
    loop {
        match l.step(&mut rt) {
            LoopAction::PollTask { id } => match rt.poll_task(id, 1) {
                Some(task) => {
                    polled.push(id);
                    assert!(rt.finish_poll(id, task, 1, 1, true));
                    l.task_completed(&mut rt, id, false);
                }
                None => polled.push(usize::MAX),
            },
            LoopAction::Finished => break,
            LoopAction::Continue => {}
            a => panic!("{:?}", a),
        }
    }
    assert_eq!(polled, [id, usize::MAX, other]);
}

#[test]
fn a_reactor_that_is_registered_again_starts_anew() {
    let mut rt = Runtime::new(1);
    assert_eq!(rt.register_reactor("a".into()), 0);
    assert_eq!(rt.register_reactor("b".into()), 1);
    rt.reactor_polled(0, 5);
    assert!(rt.can_count_poll(1, u64::MAX - 5));
    assert!(!rt.can_count_poll(1, u64::MAX));
    assert!(!rt.can_count_poll(2, 0));
    assert_eq!(rt.get_reactor_polling_time(), 5);
    assert_eq!(rt.register_reactor("a".into()), 0);
    assert_eq!(rt.reactor_count(), 2);
    assert_eq!(rt.reactor_poll_count(0), 0);
    assert!(rt.reactor_enabled(0));
}

#[test]
fn a_stuck_loop_pauses_longer_and_gives_up() {
    let mut rt = Runtime::new(1);
    rt.spawn_with_runtime();
    rt.take_regular();
    let mut l = EventLoop::run_queue(25_000);
    let mut pauses = Vec::new();
    loop {
        match l.step(&mut rt) {
            LoopAction::Continue => {}
            LoopAction::Sleep { millis } => pauses.push(millis),
            LoopAction::Stuck => break,
            other => panic!("{:?}", other),
        }
    }
    assert_eq!(pauses, [2, 4]);
    assert_eq!(l.step(&mut rt), LoopAction::Stuck);
    assert_eq!(rt.task_count(), 1);
}

#[test]
fn block_on_ends_with_its_task_and_yields_while_stuck() {
    let mut rt = Runtime::new(1);
    let other = rt.spawn_with_runtime();
    let mine = rt.spawn_with_runtime();
    let mut l = EventLoop::block_on(mine, 3);
    let mut yields = 0;
    loop {
        match l.step(&mut rt) {
            LoopAction::Continue => {}
            LoopAction::Yield => yields += 1,
            LoopAction::PollTask { id } if id == mine => {
                poll(&mut rt, id, 1, 1, true);
                l.task_completed(&mut rt, id, false);
            }
            LoopAction::PollTask { id } => poll(&mut rt, id, 1, 1, false),
            LoopAction::Finished => break,
            a => panic!("{:?}", a),
        }
    }
    assert_eq!(yields, 1);
    assert!(rt.contains_task(other));
    assert!(!rt.contains_task(mine));

    // A task that never completes: the loop is stuck after its limit.
    let mut l = EventLoop::block_on(other, 3);
    let mut yields = 0;
    loop {
        match l.step(&mut rt) {
            LoopAction::Yield => yields += 1,
            LoopAction::Stuck => break,
            LoopAction::Continue => {}
            a => panic!("{:?}", a),
        }
    }
    assert_eq!(yields, 3);
}

#[test]
fn progress_runs_at_most_a_hundred_tasks() {
    let mut rt = Runtime::new(1);
    for _ in 0..150 {
        rt.spawn_with_runtime();
    }
    for expected in [100, 50, 0] {
        let mut l = EventLoop::progress();
        let mut polled = 0;
        loop {
            match l.step(&mut rt) {
                LoopAction::Continue => {}
                LoopAction::PollTask { id } => {
                    polled += 1;
                    poll(&mut rt, id, 1, 1, false);
                }
                LoopAction::Finished => break,
                a => panic!("{:?}", a),
            }
        }
        assert_eq!(polled, expected);
    }
}

#[test]
fn stuck_limit_comes_from_its_variable() {
    assert_eq!(max_stuck_iterations(None), 1_000_000);
    assert_eq!(max_stuck_iterations(Some("12")), 12);
    assert_eq!(max_stuck_iterations(Some("twelve")), 1_000_000);
    assert_eq!(max_stuck_iterations(Some("18446744073709551616")), 1_000_000);
}

#[test]
fn pool_reuses_vacated_ids() {
    let mut rt = Runtime::new(2);
    let a = rt.spawn_with_runtime();
    let b = rt.spawn_with_runtime();
    assert!(rt.contains_task(a) && rt.contains_task(b));
    poll(&mut rt, a, 1, 1, true);
    rt.complete_task(a, false);
    assert!(!rt.contains_task(a));
    assert_eq!(rt.task_count(), 1);
    assert!(rt.poll_task(a, 1).is_none());
    let c = rt.spawn_with_runtime();
    assert_ne!(c, b);
    assert_eq!(rt.task_count(), 2);
}

#[test]
fn statistics_are_found_by_name() {
    let mut rt = Runtime::new(2);
    let a = rt.spawn_with_name_and_runtime("read_file".into());
    let b = rt.spawn_with_name_and_runtime("read".into());
    let c = rt.spawn_with_runtime();
    poll(&mut rt, a, 100, 10, false);
    poll(&mut rt, a, 400, 7, true);
    poll(&mut rt, b, 200, 20, true);
    rt.complete_task(b, true);
    let names = |v: Vec<TaskStat>| -> Vec<Option<String>> {
        v.into_iter().map(|s| s.task_name).collect()
    };
    let both = [Some("read_file".to_string()), Some("read".to_string())];
    assert_eq!(names(rt.get_stats_by_name("read")), both);
    assert_eq!(names(rt.get_stats_by_name("rea")), both);
    assert_eq!(names(rt.get_stats_by_name("file")), both[..1]);
    // The empty name is part of every name, also of none.
    assert_eq!(names(rt.get_stats_by_name("")), [both[0].clone(), None, both[1].clone()]);
    assert!(rt.get_stats_by_name("write").is_empty());
    assert_eq!(rt.get_total_time("rea"), 20);
    assert_eq!(rt.get_total_time("file"), 0);
    rt.complete_task(a, true);
    assert_eq!(rt.get_total_time("rea"), 37);
    assert_eq!(rt.checked_total_time("rea"), Some(37));
    assert_eq!(rt.get_stats_by_name("read_file")[0].execute_time_ns, 17);
    let longest = rt.get_longest_running_task().unwrap();
    assert_eq!(longest.task_name, Some("read_file".to_string()));
    // From the first poll at 100 to the end of the last, 7 after 400.
    assert_eq!(longest.get_elapsed_real_time(), Some(307));
    assert_eq!(rt.get_reactor_polling_time(), 0);
    rt.complete_task(c, false);
    assert_eq!(rt.task_count(), 0);
}

#[test]
fn a_total_that_cannot_be_counted_is_reported() {
    let mut rt = Runtime::new(2);
    for _ in 0..2 {
        let id = rt.spawn_with_name_and_runtime("long".into());
        poll(&mut rt, id, 0, u64::MAX, true);
        rt.complete_task(id, true);
    }
    assert_eq!(rt.checked_total_time("long"), None);
    assert_eq!(rt.checked_total_time("short"), Some(0));
}

#[test]
fn the_last_of_the_longest_tasks_is_reported() {
    let mut rt = Runtime::new(2);
    assert!(rt.get_longest_running_task().is_none());
    for (name, start, end) in [("a", 10, 49), ("b", 100, 139), ("c", 5, 6)] {
        let id = rt.spawn_with_name_and_runtime(name.into());
        poll(&mut rt, id, start, 1, false);
        poll(&mut rt, id, end, 1, true);
        rt.complete_task(id, true);
    }
    let longest = rt.get_longest_running_task().unwrap();
    assert_eq!(longest.task_name, Some("b".to_string()));
    assert_eq!(longest.get_elapsed_real_time(), Some(40));
}

struct Counting(std::cell::Cell<u32>);

impl Reactor for Counting {
    fn poll(&self) {
        self.0.set(self.0.get() + 1);
    }

    fn status(&self) -> ReactorStatus {
        ReactorStatus::Blocking
    }
}

#[test]
fn a_shared_reactor_is_a_reactor() {
    let r = Rc::new(Counting(std::cell::Cell::new(0)));
    Reactor::poll(&r);
    assert_eq!(r.0.get(), 1);
    assert_eq!(Reactor::status(&r), ReactorStatus::Blocking);
}

#[test]
fn pauses_double_up_to_their_limit() {
    let mut rt = Runtime::new(1);
    rt.spawn_with_runtime();
    rt.take_regular();
    let mut l = EventLoop::run_queue(130_000);
    let mut pauses = Vec::new();
    loop {
        match l.step(&mut rt) {
            LoopAction::Sleep { millis } => pauses.push(millis),
            LoopAction::Stuck => break,
            _ => {}
        }
    }
    assert_eq!(pauses, [2, 4, 8, 16, 32, 64, 128, 256, 512, 1024, 1024, 1024, 1024]);
}

#[test]
fn progress_starts_the_count_anew() {
    let mut rt = Runtime::new(1);
    rt.register_reactor("r".into());
    rt.spawn_with_runtime();
    rt.take_regular();
    let mut l = EventLoop::run_queue(2);
    // Each round reads the status twice: in its search, and at the reactor's turn.
    let mut reads = 0;
    loop {
        match l.step(&mut rt) {
            LoopAction::ReadStatus { index } => {
                assert_eq!(index, 0);
                reads += 1;
                let round = (reads + 1) / 2;
                let status =
                    if round == 2 { ReactorStatus::Running } else { ReactorStatus::Stopped };
                l.status_read(status);
            }
            LoopAction::PollReactor { index } => l.reactor_polled(&mut rt, index, 1),
            LoopAction::Stuck => break,
            LoopAction::Continue => {}
            a => panic!("{:?}", a),
        }
    }
    assert_eq!(reads, 10);
}
