//! Statistics of the runtime as a whole.

use crate::runtime::task::stat::TaskStat;
use crate::runtime::task::Task;
use vstd::prelude::*;

verus! {

/// Whether `s` spells `true` in any mixture of upper and lower case.
pub open spec fn spells_true(s: Seq<char>) -> bool {
    &&& s.len() == 4
    &&& s[0] == 't' || s[0] == 'T'
    &&& s[1] == 'r' || s[1] == 'R'
    &&& s[2] == 'u' || s[2] == 'U'
    &&& s[3] == 'e' || s[3] == 'E'
}

/// Whether finished tasks' statistics are kept: the variable
/// `PLUVIO_RETAIN_TASK_STATS` must be `1` or `true`.
pub fn retain_task_stats(var: Option<&str>) -> (r: bool)
    ensures
        r == (var matches Some(s) && (s@ == "1"@ || spells_true(s@))),
{
    proof {
        reveal_strlit("1");
    }
    match var {
        None => false,
        Some(s) => {
            let len: usize = s.unicode_len();
            if len == 1 {
                let one: bool = s.get_char(0) == '1';
                assert(one ==> s@ =~= "1"@);
                one
            } else if len == 4 {
                let (a, b, c, d) = (s.get_char(0), s.get_char(1), s.get_char(2), s.get_char(3));
                (a == 't' || a == 'T') && (b == 'r' || b == 'R') && (c == 'u' || c == 'U') && (d
                    == 'e' || d == 'E')
            } else {
                false
            }
        },
    }
}

/// Runtime wide statistics collected during execution.
#[derive(Debug)]
pub struct RuntimeStat {
    pub finished_task_stats: Vec<TaskStat>,
    pub pool_and_completion_time: u64,
}

impl RuntimeStat {
    /// Nothing has been recorded.
    pub fn new() -> (s: RuntimeStat)
        ensures
            s.finished_task_stats@.len() == 0,
            s.pool_and_completion_time == 0,
    {
        RuntimeStat { finished_task_stats: Vec::new(), pool_and_completion_time: 0 }
    }

    /// Record the statistics of a finished task, which are taken out of it.
    /// They are kept only if `retain` asks for it; by default they are
    /// dropped, so that the record does not grow without bound.
    pub fn add_task_stat(&mut self, task: Option<&mut Option<Task>>, retain: bool)
        requires
            task matches Some(slot) ==> (*slot matches Some(t) ==> t.task_stat is Some),
        ensures
            final(self).pool_and_completion_time == old(self).pool_and_completion_time,
            match task {
                Some(slot) => match *slot {
                    Some(t) => {
                        &&& *final(slot) == Some(Task { task_stat: None, ..t })
                        &&& final(self).finished_task_stats@ == if retain {
                            old(self).finished_task_stats@.push(t.task_stat->0.finished())
                        } else {
                            old(self).finished_task_stats@
                        }
                    },
                    None => {
                        &&& *final(slot) is None
                        &&& final(self).finished_task_stats@ == old(self).finished_task_stats@
                    },
                },
                None => final(self).finished_task_stats@ == old(self).finished_task_stats@,
            },
    {
        match task {
            Some(slot) => {
                match slot.take() {
                    Some(mut t) => {
                        let mut stat = t.task_stat.take().unwrap();
                        *slot = Some(t);
                        stat.running = false;
                        if retain {
                            self.finished_task_stats.push(stat);
                        }
                    },
                    None => {},
                }
            },
            None => {},
        }
    }

    /// Accumulate time spent polling reactors and completing I/O.
    pub fn add_pool_and_completion_time(&mut self, time: u64)
        requires
            old(self).pool_and_completion_time + time <= u64::MAX,
        ensures
            final(self).finished_task_stats == old(self).finished_task_stats,
            final(self).pool_and_completion_time == old(self).pool_and_completion_time + time,
    {
        self.pool_and_completion_time = self.pool_and_completion_time + time;
    }
}


/// A letter in lower case; any other character as it is.
pub open spec fn lower_case(c: char) -> char {
    if 'A' <= c && c <= 'Z' {
        (c as int + 32) as char
    } else {
        c
    }
}

/// A text spells `true` exactly if it does so in lower case.
pub proof fn spelling_ignores_case(s: Seq<char>)
    ensures
        spells_true(s) <==> s.map_values(|c: char| lower_case(c)) == "true"@,
{
    reveal_strlit("true");
    let lower = s.map_values(|c: char| lower_case(c));
    if spells_true(s) {
        assert(lower =~= "true"@);
    }
    if lower == "true"@ {
        assert(lower.len() == "true"@.len());
        assert(lower[0] == 't' && lower[1] == 'r' && lower[2] == 'u' && lower[3] == 'e');
    }
}

} // verus!
