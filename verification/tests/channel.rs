//! The single-thread channel.

use pluvio::runtime::executor::spsc::{
    bounded, unbounded, RecvError, RecvStep, RecvTimeoutError, SendError, TryRecvError,
    TrySendError,
};

#[test]
fn bounded_channel_preserves_fifo_and_capacity() {
    let (mut ch, sender, receiver) = bounded(2);
    assert_eq!(sender.capacity(&ch), 2);
    assert!(sender.is_empty(&ch));

    sender.try_send(&mut ch, 10).unwrap();
    sender.try_send(&mut ch, 20).unwrap();

    let err = sender.try_send(&mut ch, 30).unwrap_err();
    assert!(matches!(err, TrySendError::Full(30)));
    assert_eq!(sender.len(&ch), 2);

    assert_eq!(receiver.try_recv(&mut ch).unwrap(), 10);
    sender.try_send(&mut ch, 30).unwrap();
    assert_eq!(receiver.try_recv(&mut ch).unwrap(), 20);
    assert_eq!(receiver.try_recv(&mut ch).unwrap(), 30);
    assert!(matches!(receiver.try_recv(&mut ch), Err(TryRecvError::Empty)));
}

#[test]
fn unbounded_channel_grows_buffer() {
    let (mut ch, sender, receiver) = unbounded();
    let initial_capacity = sender.capacity(&ch);
    assert!(initial_capacity >= 1);

    let total_messages = initial_capacity + 5;
    for i in 0..total_messages {
        sender.try_send(&mut ch, i).unwrap();
    }

    assert!(
        sender.capacity(&ch) > initial_capacity,
        "capacity did not grow: {}",
        sender.capacity(&ch)
    );
    assert_eq!(sender.len(&ch), total_messages);

    for i in 0..total_messages {
        assert_eq!(receiver.try_recv(&mut ch).unwrap(), i);
    }
    assert!(receiver.is_empty(&ch));
}

#[test]
fn growth_keeps_the_order_across_the_wrap() {
    let (mut ch, sender, receiver) = unbounded();
    for i in 0..32 {
        sender.send(&mut ch, i).unwrap();
    }
    for i in 0..20 {
        assert_eq!(receiver.try_recv(&mut ch), Ok(i));
    }
    for i in 32..80 {
        sender.send(&mut ch, i).unwrap();
    }
    assert_eq!(receiver.capacity(&ch), 64);
    assert_eq!(receiver.len(&ch), 60);
    for i in 20..80 {
        assert_eq!(receiver.try_recv(&mut ch), Ok(i));
    }
}

#[test]
fn disconnect_propagates_errors() {
    let (mut ch, sender, receiver) = bounded::<i32>(1);
    receiver.disconnect(&mut ch);
    assert!(sender.is_disconnected(&ch));
    let err = sender.try_send(&mut ch, 42).unwrap_err();
    assert!(matches!(err, TrySendError::Disconnected(42)));
    assert_eq!(sender.send(&mut ch, 42), Err(SendError(42)));

    let (mut ch, sender, receiver) = bounded::<i32>(1);
    sender.disconnect(&mut ch);
    assert!(receiver.is_disconnected(&ch));
    assert!(matches!(
        receiver.try_recv(&mut ch),
        Err(TryRecvError::Disconnected)
    ));
}

#[test]
fn what_was_sent_survives_the_sender() {
    let (mut ch, sender, receiver) = bounded(3);
    sender.send(&mut ch, 'a').unwrap();
    sender.disconnect(&mut ch);
    assert_eq!(receiver.recv(&mut ch), RecvStep::Done(Ok('a')));
    assert_eq!(receiver.recv(&mut ch), RecvStep::Done(Err(RecvError)));
}

#[test]
fn a_full_channel_returns_the_message() {
    let (mut ch, sender, _receiver) = bounded(1);
    sender.send(&mut ch, 1).unwrap();
    assert!(!ch.accepts());
    assert_eq!(sender.send(&mut ch, 2), Err(SendError(2)));
}

#[test]
fn waiting_receives_yield_until_their_deadline() {
    let (mut ch, sender, receiver) = bounded(1);
    assert_eq!(receiver.recv(&mut ch), RecvStep::Yield);
    assert_eq!(receiver.recv_deadline(&mut ch, 100, 99), RecvStep::Yield);
    assert_eq!(
        receiver.recv_deadline(&mut ch, 100, 100),
        RecvStep::Done(Err(RecvTimeoutError::Timeout))
    );
    assert_eq!(receiver.recv_timeout(&mut ch, 100, 50, 149), RecvStep::Yield);
    assert_eq!(
        receiver.recv_timeout(&mut ch, 100, 50, 150),
        RecvStep::Done(Err(RecvTimeoutError::Timeout))
    );
    sender.send(&mut ch, 5).unwrap();
    assert_eq!(receiver.recv_deadline(&mut ch, 0, 9), RecvStep::Done(Ok(5)));
    sender.disconnect(&mut ch);
    assert_eq!(
        receiver.recv_deadline(&mut ch, 100, 0),
        RecvStep::Done(Err(RecvTimeoutError::Disconnected))
    );
}

#[test]
fn the_last_handle_disconnects() {
    let (mut ch, sender, receiver) = bounded::<i32>(1);
    let copy = sender.clone_handle(&mut ch);
    assert_eq!(ch.sender_count(), 2);
    copy.disconnect(&mut ch);
    // One sender is left.
    assert!(!receiver.is_disconnected(&ch));
    assert_eq!(receiver.try_recv(&mut ch), Err(TryRecvError::Empty));
    assert_eq!(receiver.recv(&mut ch), RecvStep::Yield);
    sender.send(&mut ch, 7).unwrap();
    sender.disconnect(&mut ch);
    assert!(receiver.is_disconnected(&ch));
    assert_eq!(receiver.try_recv(&mut ch), Ok(7));
    assert_eq!(receiver.try_recv(&mut ch), Err(TryRecvError::Disconnected));

    let (mut ch, sender, receiver) = bounded::<i32>(1);
    let copy = receiver.clone_handle(&mut ch);
    assert_eq!(ch.receiver_count(), 2);
    receiver.disconnect(&mut ch);
    assert!(!sender.is_disconnected(&ch));
    sender.send(&mut ch, 8).unwrap();
    assert_eq!(copy.try_recv(&mut ch), Ok(8));
    copy.disconnect(&mut ch);
    assert!(sender.is_disconnected(&ch));
    assert_eq!(sender.try_send(&mut ch, 9), Err(TrySendError::Disconnected(9)));
    assert_eq!(ch.receiver_count(), 0);
}
