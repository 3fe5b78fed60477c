//! The reactor that progresses the registered workers.
//!
//! Workers themselves stay with the caller; the reactor knows each by a number
//! that the caller gives it. The slab that holds these numbers is the `slab`
//! crate's; `worker_slots` names its contents.

use crate::runtime::reactor::ReactorStatus;
use crate::text;
use slab::Slab;
use vstd::prelude::*;

verus! {

/// Seconds that a connection may take, unless `PLUVIO_CONNECTION_TIMEOUT` says
/// otherwise.
pub const DEFAULT_CONNECTION_TIMEOUT: u64 = 30;

/// What a slab of workers holds: the occupied keys and the workers' numbers.
pub uninterp spec fn worker_slots(workers: Slab<u64>) -> Map<usize, u64>;

/// `Slab::new`: an empty slab.
#[verifier::external_body]
fn workers_new() -> (workers: Slab<u64>)
    ensures
        worker_slots(workers).dom() == Set::<usize>::empty(),
{
    Slab::new()
}

/// `Slab::insert`: stores the value under a key that was vacant and returns
/// the key. Which vacant key it takes is left unsaid.
#[verifier::external_body]
fn workers_insert(workers: &mut Slab<u64>, worker: u64) -> (key: usize)
    ensures
        !worker_slots(*old(workers)).contains_key(key),
        worker_slots(*final(workers)) == worker_slots(*old(workers)).insert(key, worker),
{
    workers.insert(worker)
}

/// `Slab::remove`: takes the value under an occupied key out and leaves the key
/// vacant.
#[verifier::external_body]
fn workers_remove(workers: &mut Slab<u64>, key: usize) -> (worker: u64)
    requires
        worker_slots(*old(workers)).contains_key(key),
    ensures
        worker == worker_slots(*old(workers))[key],
        worker_slots(*final(workers)) == worker_slots(*old(workers)).remove(key),
{
    workers.remove(key)
}

/// `Slab::iter`: every occupied key with its value, in ascending order of the
/// keys.
#[verifier::external_body]
fn workers_list(workers: &Slab<u64>) -> (list: Vec<(usize, u64)>)
    ensures
        ascending_entries(list@, worker_slots(*workers)),
{
    workers.iter().map(|entry| (entry.0, *entry.1)).collect()
}

/// `list` are the entries of `slots` in ascending order of their keys.
pub open spec fn ascending_entries(list: Seq<(usize, u64)>, slots: Map<usize, u64>) -> bool {
    &&& forall|i: int, j: int|
        0 <= i < j < list.len() ==> (#[trigger] list[i]).0 < (#[trigger] list[j]).0
    &&& forall|i: int|
        0 <= i < list.len() ==> slots.contains_key((#[trigger] list[i]).0) && slots[list[i].0]
            == list[i].1
    &&& forall|k: usize| #[trigger]
        slots.contains_key(k) ==> exists|i: int| 0 <= i < list.len() && (#[trigger] list[i]).0 == k
}

/// Statistics of the intervals between polls.
#[derive(Debug)]
pub struct ReactorStats {
    last_ns: Option<u64>,
    count: usize,
    streaming: bool,
}

impl ReactorStats {
    /// The time of the last poll.
    pub closed spec fn last_view(&self) -> Option<u64> {
        self.last_ns
    }

    /// Polls recorded.
    pub closed spec fn count_view(&self) -> usize {
        self.count
    }

    /// Whether intervals are written out.
    pub closed spec fn is_streaming(&self) -> bool {
        self.streaming
    }

    /// A recorder without polls; `streaming` says whether intervals are
    /// written out.
    pub fn new(streaming: bool) -> (s: ReactorStats)
        ensures
            s.last_view() is None,
            s.count_view() == 0,
            s.is_streaming() == streaming,
    {
        ReactorStats { last_ns: None, count: 0, streaming }
    }

    /// The number of polls recorded.
    pub fn len(&self) -> (n: usize)
        ensures
            n == self.count_view(),
    {
        self.count
    }

    /// Record a poll at `now_ns`. Returns the interval to write out, in
    /// microseconds: there is one from the second poll on, if intervals are
    /// written out.
    pub fn record(&mut self, now_ns: u64) -> (interval_us: Option<u64>)
        requires
            old(self).last_view() matches Some(prev) ==> prev <= now_ns,
            old(self).count_view() < usize::MAX,
        ensures
            final(self).last_view() == Some(now_ns),
            final(self).count_view() == old(self).count_view() + 1,
            final(self).is_streaming() == old(self).is_streaming(),
            interval_us == match old(self).last_view() {
                Some(prev) => if old(self).is_streaming() {
                    Some(((now_ns - prev) / 1000) as u64)
                } else {
                    None
                },
                None => None,
            },
    {
        let interval: Option<u64> = match self.last_ns {
            Some(prev) => if self.streaming {
                Some((now_ns - prev) / 1000)
            } else {
                None
            },
            None => None,
        };
        self.last_ns = Some(now_ns);
        self.count = self.count + 1;
        interval
    }
}

/// The first line of a file of intervals.
pub fn stats_header() -> (s: String)
    ensures
        s@ == "interval_us"@,
{
    String::from_str("interval_us")
}

/// The line of one interval.
pub fn stats_line(interval_us: u64) -> (s: String)
    ensures
        s@ == text::decimal(interval_us as nat),
{
    let mut s = String::new();
    text::push_decimal(&mut s, interval_us);
    assert(s@ =~= text::decimal(interval_us as nat));
    s
}

/// How long a connection may take: the variable `PLUVIO_CONNECTION_TIMEOUT` in
/// seconds if it is a number, else the default.
pub fn connection_timeout_secs(var: Option<&str>) -> (n: u64)
    ensures
        n == match var {
            Some(s) => match text::unsigned_value(s@) {
                Some(v) => if v <= u64::MAX {
                    v as u64
                } else {
                    DEFAULT_CONNECTION_TIMEOUT
                },
                None => DEFAULT_CONNECTION_TIMEOUT,
            },
            None => DEFAULT_CONNECTION_TIMEOUT,
        },
        var is None || text::unsigned_value(var->0@) is None ==> n == 30,
{
    match var {
        Some(s) => match text::parse_unsigned(s, u64::MAX) {
            Some(v) => v,
            None => DEFAULT_CONNECTION_TIMEOUT,
        },
        None => DEFAULT_CONNECTION_TIMEOUT,
    }
}

/// Reactor of the registered workers. A counter of the workers that are active
/// or waiting answers `status` without going through them.
pub struct UCXReactor {
    registered_workers: Slab<u64>,
    connection_timeout_secs: u64,
    active_or_waiting_count: usize,
    stats: Option<ReactorStats>,
    stats_enabled: bool,
}

/// The state of a reactor.
pub struct ReactorView {
    /// Registered workers by id.
    pub workers: Map<usize, u64>,
    pub connection_timeout_secs: u64,
    /// Workers that are active or waiting.
    pub active: usize,
    pub stats: Option<ReactorStats>,
    pub stats_enabled: bool,
}

impl View for UCXReactor {
    type V = ReactorView;

    closed spec fn view(&self) -> ReactorView {
        ReactorView {
            workers: worker_slots(self.registered_workers),
            connection_timeout_secs: self.connection_timeout_secs,
            active: self.active_or_waiting_count,
            stats: self.stats,
            stats_enabled: self.stats_enabled,
        }
    }
}

impl UCXReactor {
    /// A reactor without workers.
    pub fn new(connection_timeout_secs: u64) -> (r: UCXReactor)
        ensures
            r@.workers == Map::<usize, u64>::empty(),
            r@.connection_timeout_secs == connection_timeout_secs,
            r@.active == 0,
            r@.stats is None,
            !r@.stats_enabled,
    {
        let r = UCXReactor {
            registered_workers: workers_new(),
            connection_timeout_secs,
            active_or_waiting_count: 0,
            stats: None,
            stats_enabled: false,
        };
        assert(r@.workers =~= Map::<usize, u64>::empty());
        r
    }

    /// Register the worker that the caller knows as `worker`. Returns its id.
    pub fn register_worker(&mut self, worker: u64) -> (id: usize)
        ensures
            !old(self)@.workers.contains_key(id),
            final(self)@ == (ReactorView {
                workers: old(self)@.workers.insert(id, worker),
                ..old(self)@
            }),
    {
        workers_insert(&mut self.registered_workers, worker)
    }

    /// Take the worker of this id off the reactor.
    pub fn unregister_worker(&mut self, id: usize)
        requires
            old(self)@.workers.contains_key(id),
        ensures
            final(self)@ == (ReactorView {
                workers: old(self)@.workers.remove(id),
                ..old(self)@
            }),
    {
        let _ = workers_remove(&mut self.registered_workers, id);
    }

    /// A worker went from inactive to active or waiting.
    pub fn increment_active_count(&mut self)
        ensures
            final(self)@ == (ReactorView {
                active: if old(self)@.active == usize::MAX {
                    0
                } else {
                    (old(self)@.active + 1) as usize
                },
                ..old(self)@
            }),
    {
        self.active_or_waiting_count = if self.active_or_waiting_count == usize::MAX {
            0
        } else {
            self.active_or_waiting_count + 1
        };
    }

    /// A worker went from active or waiting to inactive.
    pub fn decrement_active_count(&mut self)
        ensures
            final(self)@ == (ReactorView {
                active: if old(self)@.active == 0 {
                    usize::MAX
                } else {
                    (old(self)@.active - 1) as usize
                },
                ..old(self)@
            }),
    {
        self.active_or_waiting_count = if self.active_or_waiting_count == 0 {
            usize::MAX
        } else {
            self.active_or_waiting_count - 1
        };
    }

    /// Start recording the intervals between polls; `streaming` says whether
    /// they are written out.
    pub fn enable_stats(&mut self, streaming: bool)
        ensures
            final(self)@.stats matches Some(s) && s.last_view() is None && s.count_view() == 0
                && s.is_streaming() == streaming,
            final(self)@ == (ReactorView {
                stats: final(self)@.stats,
                stats_enabled: true,
                ..old(self)@
            }),
    {
        self.stats = Some(ReactorStats::new(streaming));
        self.stats_enabled = true;
    }

    /// Stop recording; what has been recorded stays.
    pub fn disable_stats(&mut self)
        ensures
            final(self)@ == (ReactorView { stats_enabled: false, ..old(self)@ }),
    {
        self.stats_enabled = false;
    }

    /// The number of recorded polls, 0 while recording is off.
    pub fn stats_len(&self) -> (n: usize)
        ensures
            n == match self@.stats {
                Some(s) if self@.stats_enabled => s.count_view(),
                _ => 0,
            },
    {
        if !self.stats_enabled {
            return 0;
        }
        match &self.stats {
            Some(s) => s.len(),
            None => 0,
        }
    }

    /// Running as long as a worker is active or waiting.
    pub fn status(&self) -> (s: ReactorStatus)
        ensures
            s == if self@.active > 0 {
                ReactorStatus::Running
            } else {
                ReactorStatus::Stopped
            },
    {
        if self.active_or_waiting_count > 0 {
            ReactorStatus::Running
        } else {
            ReactorStatus::Stopped
        }
    }

    /// Record a poll at `now_ns`, if polls are being recorded. Returns the
    /// interval to write out.
    pub fn record_poll(&mut self, now_ns: u64) -> (interval_us: Option<u64>)
        requires
            old(self)@.stats matches Some(s) ==> {
                &&& s.last_view() matches Some(prev) ==> prev <= now_ns
                &&& s.count_view() < usize::MAX
            },
        ensures
            final(self)@ == (ReactorView { stats: final(self)@.stats, ..old(self)@ }),
            match old(self)@.stats {
                Some(s) if old(self)@.stats_enabled => {
                    &&& final(self)@.stats matches Some(t)
                    &&& t.last_view() == Some(now_ns)
                    &&& t.count_view() == s.count_view() + 1
                    &&& t.is_streaming() == s.is_streaming()
                    &&& interval_us == match s.last_view() {
                        Some(prev) => if s.is_streaming() {
                            Some(((now_ns - prev) / 1000) as u64)
                        } else {
                            None
                        },
                        None => None,
                    }
                },
                _ => final(self)@.stats == old(self)@.stats && interval_us is None,
            },
    {
        if !self.stats_enabled {
            return None;
        }
        match self.stats.take() {
            Some(mut stats) => {
                let interval = stats.record(now_ns);
                self.stats = Some(stats);
                interval
            },
            None => None,
        }
    }

    /// The workers to progress in a poll, in the order of their ids.
    pub fn workers_to_progress(&self) -> (list: Vec<(usize, u64)>)
        ensures
            ascending_entries(list@, self@.workers),
    {
        workers_list(&self.registered_workers)
    }
}


/// The entries of the workers are listed each once and no others, the smaller
/// id first.
pub proof fn entries_are_listed_once(list: Seq<(usize, u64)>, slots: Map<usize, u64>, id: usize)
    requires
        ascending_entries(list, slots),
    ensures
        list.no_duplicates(),
        slots.contains_key(id) <==> list.contains((id, slots[id])),
        forall|i: int, j: int| 0 <= i < j < list.len() ==> list[i].0 < list[j].0,
{
    if slots.contains_key(id) {
        let i = choose|i: int| 0 <= i < list.len() && (#[trigger] list[i]).0 == id;
        assert(list[i] == (id, slots[id]));
    }
    if list.contains((id, slots[id])) {
        let i = choose|i: int| 0 <= i < list.len() && list[i] == (id, slots[id]);
        assert(slots.contains_key(list[i].0));
    }
    assert forall|i: int, j: int| 0 <= i < list.len() && 0 <= j < list.len() && i
        != j implies list[i] != list[j] by {
        if i < j {
            assert(list[i].0 < list[j].0);
        } else {
            assert(list[j].0 < list[i].0);
        }
    }
}

} // verus!
