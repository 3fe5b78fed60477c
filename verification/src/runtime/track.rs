//! Track ids, which put asynchronous tasks on separate tracks of a trace.

use std::collections::VecDeque;
use vstd::prelude::*;

verus! {

/// Hands out track ids and takes them back. Id 0 is the main track and is
/// never handed out while the counter has not wrapped around.
#[derive(Debug)]
pub struct TrackIdAllocator {
    /// Ids that were given back, the oldest first.
    available_ids: VecDeque<u64>,
    /// The next id to hand out if none was given back.
    next_id: u64,
}

/// The state of an allocator.
#[verifier::ext_equal]
pub struct TrackIdView {
    pub available: Seq<u64>,
    pub next: u64,
}

impl TrackIdView {
    /// The id that comes next.
    pub open spec fn upcoming(self) -> u64 {
        if self.available.len() > 0 {
            self.available[0]
        } else {
            self.next
        }
    }

    /// The state after that id was handed out.
    pub open spec fn after_acquire(self) -> TrackIdView {
        if self.available.len() > 0 {
            TrackIdView { available: self.available.skip(1), ..self }
        } else {
            TrackIdView {
                next: if self.next == u64::MAX {
                    0
                } else {
                    (self.next + 1) as u64
                },
                ..self
            }
        }
    }

    /// The state after `id` was given back.
    pub open spec fn after_release(self, id: u64) -> TrackIdView {
        if id != 0 {
            TrackIdView { available: self.available.push(id), ..self }
        } else {
            self
        }
    }

    /// `held` are the ids in use: none of them is available or still to come,
    /// none is available twice, and 0 is none of them.
    pub open spec fn consistent(self, held: Set<u64>) -> bool {
        &&& 0 < self.next
        &&& self.available.no_duplicates()
        &&& forall|i: int|
            0 <= i < self.available.len() ==> 0 < #[trigger] self.available[i] < self.next
                && !held.contains(self.available[i])
        &&& forall|id: u64| #[trigger] held.contains(id) ==> 0 < id < self.next
    }
}

impl View for TrackIdAllocator {
    type V = TrackIdView;

    closed spec fn view(&self) -> TrackIdView {
        TrackIdView { available: self.available_ids@, next: self.next_id }
    }
}

impl Default for TrackIdAllocator {
    fn default() -> (a: TrackIdAllocator)
        ensures
            a@ == (TrackIdView { available: Seq::empty(), next: 1 }),
    {
        Self::new()
    }
}

impl TrackIdAllocator {
    /// No id handed out.
    pub fn new() -> (a: TrackIdAllocator)
        ensures
            a@ == (TrackIdView { available: Seq::empty(), next: 1 }),
    {
        let a = TrackIdAllocator { available_ids: VecDeque::new(), next_id: 1 };
        assert(a@.available =~= Seq::empty());
        a
    }

    /// Hand out an id: the one given back longest ago, else a new one.
    pub fn acquire(&mut self) -> (id: u64)
        ensures
            id == old(self)@.upcoming(),
            final(self)@ == old(self)@.after_acquire(),
    {
        match self.available_ids.pop_front() {
            Some(id) => {
                assert(self@.available =~= old(self)@.available.skip(1));
                id
            },
            None => {
                let id: u64 = self.next_id;
                self.next_id = if id == u64::MAX {
                    0
                } else {
                    id + 1
                };
                id
            },
        }
    }

    /// Take an id back for reuse; the main track's id is not taken.
    pub fn release(&mut self, id: u64)
        ensures
            final(self)@ == old(self)@.after_release(id),
    {
        if id != 0 {
            self.available_ids.push_back(id);
        }
    }
}

/// No two tasks hold the same track: an id that is handed out is held by
/// nobody, and it is not the main track's.
pub proof fn acquired_id_is_unique(ids: TrackIdView, held: Set<u64>)
    requires
        ids.consistent(held),
        ids.available.len() > 0 || ids.next < u64::MAX,
    ensures
        !held.contains(ids.upcoming()),
        ids.upcoming() != 0,
        ids.after_acquire().consistent(held.insert(ids.upcoming())),
{
    let after = ids.after_acquire();
    if ids.available.len() > 0 {
        let id = ids.available[0];
        assert forall|i: int| 0 <= i < after.available.len() implies 0
            < #[trigger] after.available[i] < after.next && !held.insert(id).contains(
            after.available[i],
        ) by {
            assert(after.available[i] == ids.available[i + 1]);
        }
    }
}

/// An id that is given back can be handed out again and is held by nobody.
pub proof fn released_id_is_free(ids: TrackIdView, held: Set<u64>, id: u64)
    requires
        ids.consistent(held),
        held.contains(id),
    ensures
        ids.after_release(id).consistent(held.remove(id)),
        ids.after_release(id).available.last() == id,
{
    let after = ids.after_release(id);
    assert forall|i: int| 0 <= i < after.available.len() implies 0 < #[trigger] after.available[i]
        < after.next && !held.remove(id).contains(after.available[i]) by {
        if i < ids.available.len() {
            assert(after.available[i] == ids.available[i]);
        }
    }
}

/// What a thread knows of tracks: its allocator and the track of the task that
/// is executing.
#[derive(Debug)]
pub struct TrackContext {
    pub allocator: TrackIdAllocator,
    pub current: u64,
}

impl TrackContext {
    /// A thread on its main track.
    pub fn new() -> (ctx: TrackContext)
        ensures
            ctx.allocator@ == (TrackIdView { available: Seq::empty(), next: 1 }),
            ctx.current == 0,
    {
        TrackContext { allocator: TrackIdAllocator::new(), current: 0 }
    }
}

/// Acquire a track id for a task.
pub fn acquire_track_id(ctx: &mut TrackContext) -> (id: u64)
    ensures
        id == old(ctx).allocator@.upcoming(),
        final(ctx).allocator@ == old(ctx).allocator@.after_acquire(),
        final(ctx).current == old(ctx).current,
{
    ctx.allocator.acquire()
}

/// Release the track id of a task that has completed.
pub fn release_track_id(ctx: &mut TrackContext, id: u64)
    ensures
        final(ctx).allocator@ == old(ctx).allocator@.after_release(id),
        final(ctx).current == old(ctx).current,
{
    ctx.allocator.release(id)
}

/// Set the current track.
pub fn set_current_track_id(ctx: &mut TrackContext, id: u64)
    ensures
        final(ctx).current == id,
        final(ctx).allocator == old(ctx).allocator,
{
    ctx.current = id;
}

/// The current track.
pub fn get_current_track_id(ctx: &TrackContext) -> (id: u64)
    ensures
        id == ctx.current,
{
    ctx.current
}

/// The track of a future during a poll, and the allocator then: at the first
/// poll the track is acquired.
pub open spec fn poll_begun(ids: TrackIdView, track: Option<u64>) -> (TrackIdView, u64) {
    match track {
        Some(id) => (ids, id),
        None => (ids.after_acquire(), ids.upcoming()),
    }
}

/// The track of a future after a poll, and the allocator then: a future that is
/// ready has given its track back.
pub open spec fn poll_ended(ids: TrackIdView, track: Option<u64>, ready: bool) -> (
    TrackIdView,
    Option<u64>,
) {
    match track {
        Some(id) if ready => (ids.after_release(id), None),
        _ => (ids, track),
    }
}

/// A future that runs on a track of its own: the track is acquired at the
/// first poll, is current during every poll, and is released on completion.
#[derive(Debug)]
pub struct TrackedFuture<F> {
    pub inner: F,
    pub track_id: Option<u64>,
}

impl<F> TrackedFuture<F> {
    /// A poll begins: its track is current. Returns the track to restore.
    pub fn begin_poll(&mut self, ctx: &mut TrackContext) -> (previous: u64)
        ensures
            previous == old(ctx).current,
            final(self).inner == old(self).inner,
            final(self).track_id == Some(final(ctx).current),
            (final(ctx).allocator@, final(ctx).current) == poll_begun(
                old(ctx).allocator@,
                old(self).track_id,
            ),
    {
        let id: u64 = match self.track_id {
            Some(id) => id,
            None => acquire_track_id(ctx),
        };
        self.track_id = Some(id);
        let previous: u64 = get_current_track_id(ctx);
        set_current_track_id(ctx, id);
        previous
    }

    /// The poll is over: the previous track is current again, and a completed
    /// future has given its own back.
    pub fn end_poll(&mut self, ctx: &mut TrackContext, previous: u64, ready: bool)
        ensures
            final(self).inner == old(self).inner,
            final(ctx).current == previous,
            (final(ctx).allocator@, final(self).track_id) == poll_ended(
                old(ctx).allocator@,
                old(self).track_id,
                ready,
            ),
    {
        set_current_track_id(ctx, previous);
        if ready {
            match self.track_id {
                Some(id) => {
                    release_track_id(ctx, id);
                    self.track_id = None;
                },
                None => {},
            }
        }
    }
}

/// Run `future` on a track of its own.
pub fn on_own_track<F>(future: F) -> (t: TrackedFuture<F>)
    ensures
        t.inner == future,
        t.track_id is None,
{
    TrackedFuture { inner: future, track_id: None }
}

/// The tracks of a thread: its allocator, the current track, the tracks of its
/// futures by number, and the ids that were acquired otherwise.
pub struct TrackWorld {
    pub ids: TrackIdView,
    pub current: u64,
    pub tracks: Map<int, u64>,
    pub others: Set<u64>,
}

/// What happens to the tracks of a thread.
pub enum TrackEvent {
    /// A poll of future `f` begins.
    Begin { f: int },
    /// A poll of future `f` ends; `previous` was current when it began.
    End { f: int, previous: u64, ready: bool },
    /// Someone acquires an id.
    Acquire,
    /// Someone gives an acquired id back.
    Release { id: u64 },
}

impl TrackWorld {
    /// The track of future `f`, if it has one.
    pub open spec fn track(self, f: int) -> Option<u64> {
        if self.tracks.contains_key(f) {
            Some(self.tracks[f])
        } else {
            None
        }
    }

    /// The futures' tracks with that of `f` set or struck off.
    pub open spec fn with_track(self, f: int, track: Option<u64>) -> Map<int, u64> {
        match track {
            Some(id) => self.tracks.insert(f, id),
            None => self.tracks.remove(f),
        }
    }

    /// The ids in use.
    pub open spec fn held(self) -> Set<u64> {
        self.others.union(self.tracks.values())
    }

    /// No id is held twice: the futures' tracks differ from each other and from
    /// the ids acquired otherwise, and none of them is available or the main
    /// track's.
    pub open spec fn orderly(self) -> bool {
        &&& self.ids.consistent(self.held())
        &&& forall|f: int, g: int|
            #![trigger self.tracks[f], self.tracks[g]]
            self.tracks.contains_key(f) && self.tracks.contains_key(g) && f != g
                ==> self.tracks[f] != self.tracks[g]
        &&& forall|f: int|
            #[trigger] self.tracks.contains_key(f) ==> !self.others.contains(self.tracks[f])
    }

    /// What comes of an event.
    pub open spec fn after(self, event: TrackEvent) -> TrackWorld {
        match event {
            TrackEvent::Begin { f } => {
                let (ids, id) = poll_begun(self.ids, self.track(f));
                TrackWorld {
                    ids,
                    current: id,
                    tracks: self.with_track(f, Some(id)),
                    others: self.others,
                }
            },
            TrackEvent::End { f, previous, ready } => {
                let (ids, track) = poll_ended(self.ids, self.track(f), ready);
                TrackWorld {
                    ids,
                    current: previous,
                    tracks: self.with_track(f, track),
                    others: self.others,
                }
            },
            TrackEvent::Acquire => TrackWorld {
                ids: self.ids.after_acquire(),
                others: self.others.insert(self.ids.upcoming()),
                ..self
            },
            TrackEvent::Release { id } => TrackWorld {
                ids: self.ids.after_release(id),
                others: self.others.remove(id),
                ..self
            },
        }
    }

    /// The event can happen: what is given back was acquired and has not been
    /// given back before, and where an id is needed the numbers have not run
    /// out.
    pub open spec fn allows(self, event: TrackEvent) -> bool {
        let can_acquire = self.ids.available.len() > 0 || self.ids.next < u64::MAX;
        match event {
            TrackEvent::Begin { f } => self.track(f) is Some || can_acquire,
            TrackEvent::End { .. } => true,
            TrackEvent::Acquire => can_acquire,
            TrackEvent::Release { id } => self.others.contains(id),
        }
    }
}

/// A thread before anything has happened to its tracks.
pub open spec fn no_tracks() -> TrackWorld {
    TrackWorld {
        ids: TrackIdView { available: Seq::empty(), next: 1 },
        current: 0,
        tracks: Map::empty(),
        others: Set::empty(),
    }
}

/// The tracks after the first `n` events.
pub open spec fn tracks_after(events: Seq<TrackEvent>, n: nat) -> TrackWorld
    decreases n,
{
    if n == 0 {
        no_tracks()
    } else {
        tracks_after(events, (n - 1) as nat).after(events[n - 1])
    }
}

/// Every event can happen when it does.
pub open spec fn track_history(events: Seq<TrackEvent>) -> bool {
    forall|k: nat|
        k < events.len() ==> (#[trigger] tracks_after(events, k)).allows(events[k as int])
}

/// One event keeps the ids apart.
proof fn lemma_stays_orderly(w: TrackWorld, event: TrackEvent)
    requires
        w.orderly(),
        w.allows(event),
    ensures
        w.after(event).orderly(),
{
    let v = w.after(event);
    match event {
        TrackEvent::Begin { f } => {
            if w.tracks.contains_key(f) {
                assert(v.tracks =~= w.tracks);
            } else {
                let id = w.ids.upcoming();
                acquired_id_is_unique(w.ids, w.held());
                assert(v.tracks == w.tracks.insert(f, id));
                assert(v.held() =~= w.held().insert(id)) by {
                    assert forall|x: u64| v.held().contains(x) <==> #[trigger] w.held().insert(
                        id,
                    ).contains(x) by {
                        if w.tracks.values().contains(x) {
                            let g = choose|g: int|
                                #[trigger] w.tracks.dom().contains(g) && w.tracks[g] == x;
                            assert(v.tracks.dom().contains(g) && v.tracks[g] == x);
                        }
                        if v.tracks.values().contains(x) && x != id {
                            let g = choose|g: int|
                                #[trigger] v.tracks.dom().contains(g) && v.tracks[g] == x;
                            assert(w.tracks.dom().contains(g) && w.tracks[g] == x);
                        }
                        assert(v.tracks.dom().contains(f) && v.tracks[f] == id);
                    }
                }
                assert forall|g: int| #[trigger] w.tracks.contains_key(g) implies w.tracks[g]
                    != id by {
                    assert(w.tracks.values().contains(w.tracks[g]));
                    assert(w.held().contains(w.tracks[g]));
                }
                assert(!w.others.contains(id)) by {
                    assert(!w.held().contains(id));
                }
            }
        },
        TrackEvent::End { f, previous, ready } => {
            if w.tracks.contains_key(f) && ready {
                let id = w.tracks[f];
                assert(w.tracks.values().contains(id));
                assert(w.held().contains(id));
                released_id_is_free(w.ids, w.held(), id);
                assert(v.tracks == w.tracks.remove(f));
                assert(v.held() =~= w.held().remove(id)) by {
                    assert forall|x: u64| v.held().contains(x) <==> #[trigger] w.held().remove(
                        id,
                    ).contains(x) by {
                        if v.tracks.values().contains(x) {
                            let g = choose|g: int|
                                #[trigger] v.tracks.dom().contains(g) && v.tracks[g] == x;
                            assert(w.tracks.dom().contains(g) && w.tracks[g] == x);
                            assert(w.tracks[g] != w.tracks[f]);
                        }
                        if w.tracks.values().contains(x) && x != id {
                            let g = choose|g: int|
                                #[trigger] w.tracks.dom().contains(g) && w.tracks[g] == x;
                            assert(v.tracks.dom().contains(g) && v.tracks[g] == x);
                        }
                    }
                }
            } else {
                assert(v.tracks =~= w.tracks);
            }
        },
        TrackEvent::Acquire => {
            let id = w.ids.upcoming();
            acquired_id_is_unique(w.ids, w.held());
            assert(v.held() =~= w.held().insert(id));
            assert forall|g: int| #[trigger] v.tracks.contains_key(g) implies !v.others.contains(
                v.tracks[g],
            ) by {
                assert(w.tracks.contains_key(g));
                assert(w.tracks.values().contains(w.tracks[g]));
                assert(w.held().contains(w.tracks[g]));
            }
        },
        TrackEvent::Release { id } => {
            assert(w.held().contains(id));
            released_id_is_free(w.ids, w.held(), id);
            assert(v.held() =~= w.held().remove(id)) by {
                assert forall|x: u64| v.held().contains(x) <==> #[trigger] w.held().remove(
                    id,
                ).contains(x) by {
                    if w.tracks.values().contains(x) {
                        let g = choose|g: int|
                            #[trigger] w.tracks.dom().contains(g) && w.tracks[g] == x;
                        assert(w.tracks.contains_key(g));
                    }
                }
            }
        },
    }
}

/// Whatever happens, no id is held twice: no two unfinished futures share a
/// track, and none is on the main track.
pub proof fn tracks_stay_apart(events: Seq<TrackEvent>, n: nat)
    requires
        track_history(events),
        n <= events.len(),
    ensures
        tracks_after(events, n).orderly(),
        forall|f: int|
            #[trigger] tracks_after(events, n).tracks.contains_key(f) ==> tracks_after(
                events,
                n,
            ).tracks[f] != 0,
    decreases n,
{
    if n > 0 {
        let k = (n - 1) as nat;
        tracks_stay_apart(events, k);
        assert(tracks_after(events, k).allows(events[k as int]));
        lemma_stays_orderly(tracks_after(events, k), events[k as int]);
    } else {
        assert(no_tracks().tracks.values() =~= Set::empty());
    }
    let w = tracks_after(events, n);
    assert forall|f: int| #[trigger] w.tracks.contains_key(f) implies w.tracks[f] != 0 by {
        assert(w.tracks.values().contains(w.tracks[f]));
        assert(w.held().contains(w.tracks[f]));
    }
}

/// No poll of future `f` begins in events `i..j`.
pub open spec fn not_polled(events: Seq<TrackEvent>, f: int, i: nat, j: nat) -> bool {
    forall|k: nat| i <= k < j ==> #[trigger] events[k as int] != (TrackEvent::Begin { f })
}

/// No poll of future `f` ends with the future ready in events `i..j`.
pub open spec fn not_ready(events: Seq<TrackEvent>, f: int, i: nat, j: nat) -> bool {
    forall|k: nat|
        i <= k < j ==> !(#[trigger] events[k as int] matches TrackEvent::End { f: g, ready, .. }
            && g == f && ready)
}

/// A future has no track before its first poll.
pub proof fn no_track_before_first_poll(events: Seq<TrackEvent>, f: int, n: nat)
    requires
        n <= events.len(),
        not_polled(events, f, 0, n),
    ensures
        tracks_after(events, n).track(f) is None,
    decreases n,
{
    if n > 0 {
        let k = (n - 1) as nat;
        no_track_before_first_poll(events, f, k);
        assert(events[k as int] != (TrackEvent::Begin { f }));
    }
}

/// From one moment to a later one a future that is not ready keeps its track.
proof fn lemma_track_stays(events: Seq<TrackEvent>, f: int, i: nat, j: nat)
    requires
        i <= j <= events.len(),
        tracks_after(events, i).track(f) is Some,
        not_ready(events, f, i, j),
    ensures
        tracks_after(events, j).track(f) == tracks_after(events, i).track(f),
    decreases j,
{
    if i < j {
        let k = (j - 1) as nat;
        lemma_track_stays(events, f, i, k);
        let event = events[k as int];
        assert(!(event matches TrackEvent::End { f: g, ready, .. } && g == f && ready));
    }
}

/// A future has one track throughout: whenever one of its polls begins, from
/// its first at event `i` until it is ready, the same id is current, which is
/// not the main track's and which no other future and nobody else holds.
pub proof fn future_keeps_its_track(events: Seq<TrackEvent>, f: int, i: nat, j: nat)
    requires
        track_history(events),
        i <= j < events.len(),
        events[i as int] == (TrackEvent::Begin { f }),
        events[j as int] == (TrackEvent::Begin { f }),
        not_ready(events, f, i, j),
    ensures
        ({
            let w = tracks_after(events, j + 1);
            let id = tracks_after(events, i + 1).current;
            &&& w.current == id
            &&& w.track(f) == Some(id)
            &&& id != 0
            &&& !w.others.contains(id)
            &&& forall|g: int| g != f ==> #[trigger] w.track(g) != Some(id)
        }),
{
    let w = tracks_after(events, j + 1);
    assert(tracks_after(events, i + 1).track(f) == Some(tracks_after(events, i + 1).current));
    if i < j {
        lemma_track_stays(events, f, i + 1, j);
    }
    tracks_stay_apart(events, j + 1);
    assert(w.tracks.contains_key(f));
    assert forall|g: int| g != f implies #[trigger] w.track(g) != Some(w.current) by {
        if w.tracks.contains_key(g) {
            assert(w.tracks[g] != w.tracks[f]);
        }
    }
}

/// After a poll, which begins with event `i` and ends with event `j`, the track
/// that was current before it is current again, and the track of a future that
/// is ready is back in the pool, held by nobody.
pub proof fn poll_restores_the_track(
    events: Seq<TrackEvent>,
    f: int,
    ready: bool,
    i: nat,
    j: nat,
)
    requires
        track_history(events),
        i < j < events.len(),
        events[i as int] == (TrackEvent::Begin { f }),
        events[j as int] == (TrackEvent::End {
            f,
            previous: tracks_after(events, i).current,
            ready,
        }),
        not_ready(events, f, i, j),
    ensures
        tracks_after(events, j).track(f) is Some,
        tracks_after(events, j + 1).current == tracks_after(events, i).current,
        ready ==> {
            let id = tracks_after(events, j).track(f)->0;
            let w = tracks_after(events, j + 1);
            &&& w.track(f) is None
            &&& w.ids.available.len() > 0
            &&& w.ids.available.last() == id
            &&& !w.held().contains(id)
        },
        !ready ==> tracks_after(events, j + 1).track(f) == tracks_after(events, j).track(f),
{
    lemma_track_stays(events, f, i + 1, j);
    tracks_stay_apart(events, j);
    tracks_stay_apart(events, j + 1);
    let before = tracks_after(events, j);
    let w = tracks_after(events, j + 1);
    if ready {
        assert(before.tracks.contains_key(f));
        assert(w.ids.available == before.ids.available.push(before.tracks[f]));
        let last = w.ids.available.len() - 1;
        assert(!w.held().contains(w.ids.available[last]));
    }
}

/// A future with or without a track of its own.
#[derive(Debug)]
pub enum MaybeTracked<F> {
    /// On its own track.
    OnTrack(TrackedFuture<F>),
    /// On whatever track is current.
    Untracked(F),
}

/// Put `future` on a track of its own if `enable_tracking` says so.
pub fn maybe_tracked<F>(future: F, enable_tracking: bool) -> (m: MaybeTracked<F>)
    ensures
        match m {
            MaybeTracked::OnTrack(t) => {
                enable_tracking && t.inner == future && t.track_id is None
            },
            MaybeTracked::Untracked(f) => !enable_tracking && f == future,
        },
{
    if enable_tracking {
        MaybeTracked::OnTrack(on_own_track(future))
    } else {
        MaybeTracked::Untracked(future)
    }
}


/// An id that was given back is handed out before a new one, the one given back
/// first before the others; new ids count up one by one.
pub proof fn ids_are_handed_out_in_turn(ids: TrackIdView, i: int)
    ensures
        ids.available.len() > 0 ==> {
            &&& ids.upcoming() == ids.available[0]
            &&& ids.after_acquire().available.len() == ids.available.len() - 1
            &&& 0 < i < ids.available.len() ==> ids.after_acquire().available[i - 1]
                == ids.available[i]
            &&& ids.after_acquire().next == ids.next
        },
        ids.available.len() == 0 ==> {
            &&& ids.upcoming() == ids.next
            &&& ids.after_acquire().available.len() == 0
            &&& ids.next < u64::MAX ==> ids.after_acquire().next == ids.next + 1
            &&& ids.next == u64::MAX ==> ids.after_acquire().next == 0
        },
{
}

/// An id that is given back goes behind those that were given back before; the
/// main track's is not taken.
pub proof fn released_ids_queue_up(ids: TrackIdView, id: u64, i: int)
    ensures
        ids.after_release(0) == ids,
        id != 0 ==> {
            &&& ids.after_release(id).available.len() == ids.available.len() + 1
            &&& ids.after_release(id).available.last() == id
            &&& 0 <= i < ids.available.len() ==> ids.after_release(id).available[i]
                == ids.available[i]
        },
        ids.after_release(id).next == ids.next,
{
}

/// A poll takes an id only where the future has none, and gives it back only
/// where the future is ready.
pub proof fn polls_take_and_give_one_id(ids: TrackIdView, id: u64)
    ensures
        poll_begun(ids, Some(id)) == (ids, id),
        poll_begun(ids, None) == (ids.after_acquire(), ids.upcoming()),
        poll_ended(ids, Some(id), false) == (ids, Some(id)),
        poll_ended(ids, Some(id), true) == (ids.after_release(id), None::<u64>),
        poll_ended(ids, None, true) == (ids, None::<u64>),
        poll_ended(ids, None, false) == (ids, None::<u64>),
{
}

} // verus!
