//! Headers, keys and the router of active messages.

use pluvio::collective::error::CollectiveError;
use pluvio::collective::ucx_backend::am_router::{
    dispatch_header, dispatch_payload, AmHeader, AmRouter, Delivery, DispatchStep, PendingRecv,
    RecvFuture, RecvKey, RecvPoll,
};

fn key(src: u16, step: u16) -> RecvKey {
    RecvKey::from(AmHeader { src, step, phase: 0, micro_chunk: 0 })
}

#[test]
fn header_roundtrip() {
    let h = AmHeader { src: 7, step: 3, phase: 1, micro_chunk: 9 };
    let bytes = h.encode();
    let decoded = AmHeader::decode(&bytes).unwrap();
    assert_eq!(h, decoded);
}

#[test]
fn header_bytes_are_little_endian() {
    let h = AmHeader { src: 0x0102, step: 0x0304, phase: 5, micro_chunk: 6 };
    assert_eq!(h.encode(), [2, 1, 4, 3, 5, 6, 0, 0]);
    let decoded = AmHeader::decode(&[2, 1, 4, 3, 5, 6, 9, 9, 9]).unwrap();
    assert_eq!(decoded, h);
}

#[test]
fn header_too_short() {
    let err = AmHeader::decode(&[0u8; 4]).unwrap_err();
    match err {
        CollectiveError::BadHeader { got, expected } => {
            assert_eq!(got, 4);
            assert_eq!(expected, AmHeader::BYTES);
        }
        other => panic!("unexpected error: {:?}", other),
    }
}

#[test]
fn micro_chunk_disambiguates_keys() {
    let a = AmHeader { src: 1, step: 2, phase: 0, micro_chunk: 0 };
    let b = AmHeader { src: 1, step: 2, phase: 0, micro_chunk: 1 };
    let ka: RecvKey = a.into();
    let kb: RecvKey = b.into();
    assert_ne!(ka, kb);
    assert_ne!(ka.code(), kb.code());
}

#[test]
fn early_arrival_then_recv() {
    let mut router: AmRouter<(), ()> = AmRouter::new();
    let h = AmHeader { src: 1, step: 0, phase: 0, micro_chunk: 0 };
    let key: RecvKey = h.into();
    assert!(matches!(router.deliver(key, vec![1, 2, 3, 4]), Delivery::Buffered));
    let bytes = router.take_early(key).unwrap();
    assert_eq!(bytes, vec![1, 2, 3, 4]);
    assert!(router.take_early(key).is_none());
}

#[test]
fn pending_then_deliver_copies_to_target() {
    let mut router: AmRouter<&str, u8> = AmRouter::new();
    let h = AmHeader { src: 0, step: 5, phase: 1, micro_chunk: 0 };
    let key: RecvKey = h.into();
    router.register_pending(
        key,
        PendingRecv { target: vec![0u8; 4], done: "mine", waker: None },
    );
    assert_eq!(router.pending_count(), 1);
    match router.deliver(key, vec![10, 20, 30, 40]) {
        Delivery::Completed { target, done, waker, size_mismatch } => {
            assert_eq!(target, vec![10, 20, 30, 40]);
            assert_eq!(done, "mine");
            assert!(waker.is_none());
            assert!(!size_mismatch);
        }
        _ => panic!("not completed"),
    }
    assert_eq!(router.pending_count(), 0);
}

#[test]
fn a_message_of_another_length_fills_what_fits() {
    for (bytes, expected) in [
        (vec![1u8, 2], vec![1u8, 2, 9, 9]),
        (vec![1, 2, 3, 4, 5], vec![1, 2, 3, 4]),
    ] {
        let mut router: AmRouter<(), ()> = AmRouter::new();
        router.register_pending(
            key(1, 1),
            PendingRecv { target: vec![9; 4], done: (), waker: Some(()) },
        );
        match router.deliver(key(1, 1), bytes) {
            Delivery::Completed { target, waker, size_mismatch, .. } => {
                assert_eq!(target, expected);
                assert!(waker.is_some());
                assert!(size_mismatch);
            }
            _ => panic!("not completed"),
        }
    }
}

#[test]
fn a_duplicate_leaves_the_buffered_message() {
    let mut router: AmRouter<(), ()> = AmRouter::new();
    router.deliver(key(1, 1), vec![1]);
    assert!(matches!(router.deliver(key(1, 1), vec![2]), Delivery::Duplicate));
    assert_eq!(router.take_early(key(1, 1)), Some(vec![1]));
}

#[test]
fn keys_do_not_disturb_each_other() {
    let mut router: AmRouter<u8, ()> = AmRouter::new();
    router.register_pending(key(1, 1), PendingRecv { target: vec![0], done: 7, waker: None });
    router.deliver(key(1, 2), vec![5]);
    assert_eq!(router.pending_count(), 1);
    assert!(router.take_early(key(1, 1)).is_none());
    assert_eq!(router.take_early(key(1, 2)), Some(vec![5]));
    router.cancel_pending(key(1, 2));
    assert_eq!(router.pending_count(), 1);
    router.cancel_pending(key(1, 1));
    assert_eq!(router.pending_count(), 0);
    assert!(matches!(router.deliver(key(1, 1), vec![6]), Delivery::Buffered));
    // Giving up a receive leaves a buffered message alone.
    router.cancel_pending(key(1, 1));
    assert_eq!(router.take_early(key(1, 1)), Some(vec![6]));
}

#[test]
fn arrival_before_or_after_the_receive_gives_the_same() {
    let mut router: AmRouter<u8, u8> = AmRouter::new();
    router.deliver(key(3, 0), vec![1, 2]);
    let mut early = RecvFuture::new(key(3, 0), vec![9, 9, 9]);
    assert_eq!(early.poll(&mut router, 0, 0), RecvPoll::Ready);
    assert_eq!(early.poll(&mut router, 0, 0), RecvPoll::Ready);

    let mut late = RecvFuture::new(key(3, 0), vec![9, 9, 9]);
    assert_eq!(late.poll(&mut router, 4, 1), RecvPoll::Pending);
    assert_eq!(late.poll(&mut router, 4, 2), RecvPoll::Pending);
    assert_eq!(router.pending_count(), 1);
    match router.deliver(key(3, 0), vec![1, 2]) {
        Delivery::Completed { target, done, waker, .. } => {
            assert_eq!(done, 4);
            assert_eq!(waker, Some(2));
            late.complete(target);
        }
        _ => panic!("not completed"),
    }
    assert_eq!(late.poll(&mut router, 4, 3), RecvPoll::Ready);
    let bytes = early.into_target();
    assert_eq!(bytes, vec![1, 2, 9]);
    assert_eq!(late.into_target(), bytes);
}

#[test]
fn a_receive_that_is_given_up_is_taken_back() {
    let mut router: AmRouter<u8, u8> = AmRouter::new();
    let mut recv = RecvFuture::new(key(1, 0), vec![0]);
    recv.cancel(&mut router);
    assert_eq!(recv.poll(&mut router, 0, 0), RecvPoll::Pending);
    assert_eq!(router.pending_count(), 1);
    recv.cancel(&mut router);
    assert_eq!(router.pending_count(), 0);
}

#[test]
fn dispatcher_routes_by_header() {
    let h = AmHeader { src: 2, step: 1, phase: 4, micro_chunk: 0 };
    assert!(matches!(dispatch_header(None), DispatchStep::Stop));
    assert!(matches!(dispatch_header(Some(&[0u8; 7])), DispatchStep::Skip));
    let k = match dispatch_header(Some(&h.encode())) {
        DispatchStep::Receive(k) => k,
        _ => panic!("not routed"),
    };
    assert_eq!(k, RecvKey::from(h));
    let mut router: AmRouter<(), ()> = AmRouter::new();
    assert!(dispatch_payload(&mut router, k, vec![1, 2, 3], None).is_none());
    assert!(router.take_early(k).is_none());
    assert!(matches!(
        dispatch_payload(&mut router, k, vec![1, 2, 3], Some(2)),
        Some(Delivery::Buffered)
    ));
    assert_eq!(router.take_early(k), Some(vec![1, 2]));
    dispatch_payload(&mut router, k, vec![4], Some(9));
    assert_eq!(router.take_early(k), Some(vec![4]));
}
