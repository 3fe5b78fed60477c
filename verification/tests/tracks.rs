//! Track ids.

use pluvio::runtime::track::{
    acquire_track_id, get_current_track_id, maybe_tracked, on_own_track, release_track_id,
    set_current_track_id, MaybeTracked, TrackContext, TrackIdAllocator,
};

#[test]
fn ids_start_at_one_and_are_reused_in_order() {
    let mut ids = TrackIdAllocator::default();
    assert_eq!((ids.acquire(), ids.acquire(), ids.acquire()), (1, 2, 3));
    ids.release(2);
    ids.release(0);
    ids.release(1);
    assert_eq!((ids.acquire(), ids.acquire(), ids.acquire()), (2, 1, 4));
}

#[test]
fn a_future_has_its_track_while_it_is_polled() {
    let mut ctx = TrackContext::new();
    set_current_track_id(&mut ctx, 40);
    let mut f = on_own_track("future");
    let previous = f.begin_poll(&mut ctx);
    assert_eq!(previous, 40);
    assert_eq!(get_current_track_id(&ctx), 1);
    f.end_poll(&mut ctx, previous, false);
    assert_eq!(get_current_track_id(&ctx), 40);
    assert_eq!(acquire_track_id(&mut ctx), 2);
    let previous = f.begin_poll(&mut ctx);
    assert_eq!(get_current_track_id(&ctx), 1);
    f.end_poll(&mut ctx, previous, true);
    assert_eq!(f.track_id, None);
    assert_eq!(get_current_track_id(&ctx), 40);
    assert_eq!(acquire_track_id(&mut ctx), 1);
    release_track_id(&mut ctx, 2);
    assert_eq!(acquire_track_id(&mut ctx), 2);
}

#[test]
fn tracking_is_optional() {
    assert!(matches!(maybe_tracked(1, false), MaybeTracked::Untracked(1)));
    match maybe_tracked(1, true) {
        MaybeTracked::OnTrack(t) => assert_eq!((t.inner, t.track_id), (1, None)),
        MaybeTracked::Untracked(_) => panic!("not on a track"),
    }
}

#[test]
fn futures_that_take_turns_keep_their_tracks() {
    let mut ctx = TrackContext::new();
    let (mut f, mut g) = (on_own_track('f'), on_own_track('g'));
    assert_eq!((f.track_id, g.track_id), (None, None));
    // One future is polled within the other.
    let before_f = f.begin_poll(&mut ctx);
    assert_eq!(get_current_track_id(&ctx), 1);
    let before_g = g.begin_poll(&mut ctx);
    assert_eq!((before_g, get_current_track_id(&ctx)), (1, 2));
    g.end_poll(&mut ctx, before_g, false);
    assert_eq!(get_current_track_id(&ctx), 1);
    f.end_poll(&mut ctx, before_f, false);
    assert_eq!(get_current_track_id(&ctx), 0);
    for _ in 0..3 {
        let previous = g.begin_poll(&mut ctx);
        assert_eq!(get_current_track_id(&ctx), 2);
        g.end_poll(&mut ctx, previous, false);
        let previous = f.begin_poll(&mut ctx);
        assert_eq!(get_current_track_id(&ctx), 1);
        f.end_poll(&mut ctx, previous, false);
    }
    let previous = f.begin_poll(&mut ctx);
    f.end_poll(&mut ctx, previous, true);
    assert_eq!((f.track_id, g.track_id), (None, Some(2)));
    // The track of the finished future goes to the next one.
    let mut h = on_own_track('h');
    let previous = h.begin_poll(&mut ctx);
    assert_eq!(get_current_track_id(&ctx), 1);
    h.end_poll(&mut ctx, previous, true);
    assert_eq!(get_current_track_id(&ctx), 0);
}
