//! Timers and delays.

use pluvio::runtime::reactor::ReactorStatus;
use pluvio::runtime::task::Poll;
use pluvio::timer::{sleep, Delay, TimerHandle, TimerIds, TimerReactor};
use std::time::{Duration, Instant};

const MS: u128 = 1_000_000;
const SEC: u128 = 1_000_000_000;

/// A clock that starts ten seconds in.
fn clock(start: Instant) -> u128 {
    10 * SEC + start.elapsed().as_nanos()
}

#[test]
fn test_timer_reactor_basic() {
    let mut reactor = TimerReactor::new();
    let mut ids = TimerIds::new();
    assert_eq!(reactor.timer_count(), 0);
    assert_eq!(reactor.status(), ReactorStatus::Stopped);

    let waker = futures::task::noop_waker();
    let deadline = clock(Instant::now()) + 100 * MS;

    let handle = reactor.register_timer(&mut ids, deadline, waker);
    assert_eq!(reactor.timer_count(), 1);
    assert_eq!(reactor.status(), ReactorStatus::Running);

    assert!(reactor.cancel_timer(handle));
    assert_eq!(reactor.timer_count(), 0);
    assert_eq!(reactor.status(), ReactorStatus::Stopped);
}

#[test]
fn test_timer_expiration() {
    let mut reactor = TimerReactor::new();
    let mut ids = TimerIds::new();
    let waker = futures::task::noop_waker();
    let start = Instant::now();

    let deadline = clock(start) - 100 * MS;
    reactor.register_timer(&mut ids, deadline, waker);

    assert_eq!(reactor.timer_count(), 1);
    assert_eq!(reactor.status(), ReactorStatus::Running);

    for w in reactor.poll(clock(start)) {
        w.wake();
    }
    assert_eq!(reactor.timer_count(), 0);
    assert_eq!(reactor.status(), ReactorStatus::Stopped);
}

#[test]
fn test_multiple_timers_ordered_expiration() {
    let mut reactor = TimerReactor::new();
    let mut ids = TimerIds::new();
    let start = Instant::now();
    let now = clock(start);

    reactor.register_timer(&mut ids, now + 300 * MS, futures::task::noop_waker());
    reactor.register_timer(&mut ids, now + 100 * MS, futures::task::noop_waker());
    reactor.register_timer(&mut ids, now + 200 * MS, futures::task::noop_waker());

    assert_eq!(reactor.timer_count(), 3);

    reactor.poll(now + 150 * MS);

    assert_eq!(reactor.timer_count(), 2);
}

#[test]
fn timers_fire_by_deadline_then_by_age() {
    let mut reactor = TimerReactor::new();
    let mut ids = TimerIds::new();
    reactor.register_timer(&mut ids, 30, "d");
    reactor.register_timer(&mut ids, 10, "a");
    reactor.register_timer(&mut ids, 20, "b");
    reactor.register_timer(&mut ids, 20, "c");
    assert!(reactor.wake_expired_timers(9).is_empty());
    assert_eq!(reactor.wake_expired_timers(20), ["a", "b", "c"]);
    assert!(reactor.wake_expired_timers(29).is_empty());
    assert_eq!(reactor.wake_expired_timers(30), ["d"]);
    assert!(reactor.poll(u128::MAX).is_empty());
}

#[test]
fn test_timer_handle_ordering() {
    let mut ids = TimerIds::new();
    let now = 5 * SEC;
    let handle1 = TimerHandle::new(&mut ids, now + SEC);
    let handle2 = TimerHandle::new(&mut ids, now + 2 * SEC);
    let handle3 = TimerHandle::new(&mut ids, now + SEC);

    assert!(handle1 < handle2);
    assert_ne!(handle1, handle3);
    assert!(handle1 < handle3 || handle3 < handle1);
    assert_eq!(handle1.deadline(), now + SEC);
}

#[test]
fn test_delay_methods() {
    let duration = Duration::from_secs(5);
    let start = Instant::now();
    let delay = Delay::new(clock(start), duration.as_nanos());

    let expected_deadline = clock(start) + duration.as_nanos();
    let actual_deadline = delay.deadline();
    assert!(actual_deadline >= expected_deadline - 10 * MS);
    assert!(actual_deadline <= expected_deadline + 10 * MS);

    let remaining = delay.remaining(clock(start));
    assert!(remaining <= duration.as_nanos());
    assert!(remaining >= duration.as_nanos() - 10 * MS);
    assert_eq!(delay.remaining(u128::MAX), 0);
}

#[test]
fn test_delay_new_at() {
    let deadline = clock(Instant::now()) + 10 * SEC;
    let delay = Delay::new_at(deadline);

    assert_eq!(delay.deadline(), deadline);
}

#[test]
fn test_cancel_nonexistent_timer() {
    let mut reactor: TimerReactor<()> = TimerReactor::new();
    let mut ids = TimerIds::new();
    let fake_handle = TimerHandle::new(&mut ids, clock(Instant::now()));

    assert!(!reactor.cancel_timer(fake_handle));
}

#[test]
fn test_default_trait() {
    let reactor: TimerReactor<()> = TimerReactor::default();
    assert_eq!(reactor.timer_count(), 0);
}

#[test]
fn a_delay_registers_one_timer_and_is_ready_at_its_deadline() {
    let mut reactor = TimerReactor::new();
    let mut ids = TimerIds::new();
    let mut delay = sleep(100, 50);
    assert_eq!(delay.poll(&mut reactor, &mut ids, 149, "first"), Poll::Pending);
    assert_eq!(delay.poll(&mut reactor, &mut ids, 149, "second"), Poll::Pending);
    assert_eq!(reactor.timer_count(), 1);
    assert_eq!(reactor.poll(150), ["first"]);
    assert_eq!(delay.poll(&mut reactor, &mut ids, 150, "third"), Poll::Ready(()));
    assert_eq!(reactor.timer_count(), 0);
    delay.cancel(&mut reactor);

    let mut given_up = Delay::new_at(500);
    given_up.cancel(&mut reactor);
    assert_eq!(given_up.poll(&mut reactor, &mut ids, 0, "w"), Poll::Pending);
    assert_eq!(reactor.timer_count(), 1);
    given_up.cancel(&mut reactor);
    assert_eq!(reactor.timer_count(), 0);
}

#[test]
fn timers_are_counted_one_by_one() {
    let mut ids = TimerIds::new();
    let mut reactor = TimerReactor::new();
    let mut other = TimerReactor::new();
    // One deadline, drawn from one source with another reactor: no collisions.
    let a = reactor.register_timer(&mut ids, 10, 'a');
    let x = other.register_timer(&mut ids, 10, 'x');
    let b = reactor.register_timer(&mut ids, 10, 'b');
    let c = reactor.register_timer(&mut ids, 5, 'c');
    assert!(a != x && x != b && a != b);
    assert!(c < a && a < x && x < b);
    assert_eq!((reactor.timer_count(), other.timer_count()), (3, 1));
    // A handle of another reactor is not pending here.
    assert!(!reactor.cancel_timer(x));
    assert_eq!(reactor.timer_count(), 3);
    assert!(reactor.cancel_timer(a));
    assert!(!reactor.cancel_timer(a));
    assert_eq!(reactor.timer_count(), 2);
    assert_eq!(reactor.poll(9), ['c']);
    assert_eq!(reactor.timer_count(), 1);
    assert_eq!(reactor.status(), ReactorStatus::Running);
    assert_eq!(reactor.poll(10), ['b']);
    assert_eq!(reactor.timer_count(), 0);
    assert_eq!(reactor.status(), ReactorStatus::Stopped);
}
