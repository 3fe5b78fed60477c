//! Statistics of individual tasks. Times are nanoseconds since a point that
//! the caller fixes once.

use vstd::prelude::*;

verus! {

/// Execution statistics of a task.
#[derive(Debug)]
pub struct TaskStat {
    pub task_name: Option<String>,
    /// Time spent in polls.
    pub execute_time_ns: u64,
    /// The first poll.
    pub start_time_ns: Option<u128>,
    /// The end of the poll that completed the task.
    pub end_time_ns: Option<u128>,
    pub running: bool,
}

impl TaskStat {
    /// Nothing has been recorded.
    pub open spec fn is_fresh(self, task_name: Option<String>) -> bool {
        &&& self.task_name == task_name
        &&& self.execute_time_ns == 0
        &&& self.start_time_ns is None
        &&& self.end_time_ns is None
        &&& self.running
    }

    /// The record after a poll has started at `now`.
    pub open spec fn after_start(self, now: u128) -> TaskStat {
        TaskStat {
            start_time_ns: if self.start_time_ns is Some {
                self.start_time_ns
            } else {
                Some(now)
            },
            ..self
        }
    }

    /// The record after a poll that started at `now` has ended after
    /// `elapsed_ns`.
    pub open spec fn after_poll(self, now: u128, elapsed_ns: u64, ready: bool) -> TaskStat {
        TaskStat {
            execute_time_ns: (self.execute_time_ns + elapsed_ns) as u64,
            end_time_ns: if ready && self.end_time_ns is None {
                Some((now + elapsed_ns) as u128)
            } else {
                self.end_time_ns
            },
            ..self
        }
    }

    /// The record of a task that has finished.
    pub open spec fn finished(self) -> TaskStat {
        TaskStat { running: false, ..self }
    }

    /// Real time from the first poll to the completion.
    pub open spec fn elapsed(self) -> Option<int> {
        match (self.start_time_ns, self.end_time_ns) {
            (Some(start), Some(end)) => Some(
                if end >= start {
                    end - start
                } else {
                    0
                },
            ),
            _ => None,
        }
    }

    /// A record for a task that starts.
    pub fn new(task_name: Option<String>) -> (s: TaskStat)
        ensures
            s.is_fresh(task_name),
    {
        TaskStat {
            task_name,
            execute_time_ns: 0,
            start_time_ns: None,
            end_time_ns: None,
            running: true,
        }
    }

    /// Add execution time to the total.
    pub fn add_execute_time(&mut self, time_ns: u64)
        requires
            old(self).execute_time_ns + time_ns <= u64::MAX,
        ensures
            *final(self) == (TaskStat {
                execute_time_ns: (old(self).execute_time_ns + time_ns) as u64,
                ..*old(self)
            }),
    {
        self.execute_time_ns = self.execute_time_ns + time_ns;
    }

    /// The total execution time in nanoseconds.
    pub fn get_execute_time(&self) -> (t: u64)
        ensures
            t == self.execute_time_ns,
    {
        self.execute_time_ns
    }

    /// Set the start time, unless it is set already.
    pub fn set_start_time(&mut self, now: u128)
        ensures
            *final(self) == old(self).after_start(now),
    {
        if self.start_time_ns.is_none() {
            self.start_time_ns = Some(now);
        }
    }

    /// Set the end time, unless it is set already.
    pub fn set_end_time(&mut self, now: u128)
        ensures
            *final(self) == (TaskStat {
                end_time_ns: if old(self).end_time_ns is Some {
                    old(self).end_time_ns
                } else {
                    Some(now)
                },
                ..*old(self)
            }),
    {
        if self.end_time_ns.is_none() {
            self.end_time_ns = Some(now);
        }
    }

    /// Real time from the first poll to the completion of the task.
    pub fn get_elapsed_real_time(&self) -> (t: Option<u128>)
        ensures
            match t {
                Some(d) => self.elapsed() == Some(d as int),
                None => self.elapsed() is None,
            },
    {
        match (self.start_time_ns, self.end_time_ns) {
            (Some(start), Some(end)) => Some(
                if end >= start {
                    end - start
                } else {
                    0
                },
            ),
            _ => None,
        }
    }

    /// A copy of the record.
    pub fn copied(&self) -> (s: TaskStat)
        ensures
            s == *self,
    {
        TaskStat {
            task_name: match &self.task_name {
                Some(name) => Some(name.clone()),
                None => None,
            },
            execute_time_ns: self.execute_time_ns,
            start_time_ns: self.start_time_ns,
            end_time_ns: self.end_time_ns,
            running: self.running,
        }
    }
}


/// The start is that of the first poll: it is set once, and no later poll
/// changes it or anything else.
pub proof fn start_is_set_once(s: TaskStat, first: u128, later: u128)
    ensures
        s.start_time_ns is None ==> s.after_start(first).start_time_ns == Some(first),
        s.start_time_ns is Some ==> s.after_start(first) == s,
        s.after_start(first).after_start(later) == s.after_start(first),
        s.after_start(first).task_name == s.task_name,
        s.after_start(first).execute_time_ns == s.execute_time_ns,
        s.after_start(first).end_time_ns == s.end_time_ns,
        s.after_start(first).running == s.running,
{
}

/// The execution time is the sum of the polls' times; the end is that of the
/// first poll that completed the task, and a poll that did not complete it
/// sets none.
pub proof fn polls_add_up(s: TaskStat, now: u128, elapsed_ns: u64, ready: bool)
    requires
        s.execute_time_ns + elapsed_ns <= u64::MAX,
        now + elapsed_ns <= u128::MAX,
    ensures
        ({
            let t = s.after_poll(now, elapsed_ns, ready);
            &&& t.execute_time_ns - s.execute_time_ns == elapsed_ns
            &&& !ready || s.end_time_ns is Some ==> t.end_time_ns == s.end_time_ns
            &&& ready && s.end_time_ns is None ==> t.end_time_ns is Some && t.end_time_ns->0 - now
                == elapsed_ns
            &&& t.task_name == s.task_name
            &&& t.start_time_ns == s.start_time_ns
            &&& t.running == s.running
        }),
{
}

/// A finished task's record differs from a running one's in that alone.
pub proof fn finished_record_keeps_its_times(s: TaskStat)
    ensures
        !s.finished().running,
        s.finished().task_name == s.task_name,
        s.finished().execute_time_ns == s.execute_time_ns,
        s.finished().start_time_ns == s.start_time_ns,
        s.finished().end_time_ns == s.end_time_ns,
        s.finished().elapsed() == s.elapsed(),
{
}

/// The real time is what passed between start and end: added to the start it
/// gives the end. It is known exactly once both are, and never negative.
pub proof fn elapsed_leads_from_start_to_end(s: TaskStat)
    ensures
        s.elapsed() is Some <==> s.start_time_ns is Some && s.end_time_ns is Some,
        s.elapsed() matches Some(d) ==> {
            &&& d >= 0
            &&& s.start_time_ns->0 <= s.end_time_ns->0 ==> s.start_time_ns->0 + d
                == s.end_time_ns->0
            &&& s.start_time_ns->0 > s.end_time_ns->0 ==> d == 0
        },
{
}

/// A fresh record runs under its name and has no times.
pub proof fn fresh_record_is_empty(s: TaskStat, name: Option<String>)
    requires
        s.is_fresh(name),
    ensures
        s.task_name == name,
        s.execute_time_ns == 0,
        s.start_time_ns is None,
        s.end_time_ns is None,
        s.elapsed() is None,
        s.running,
{
}

} // verus!
