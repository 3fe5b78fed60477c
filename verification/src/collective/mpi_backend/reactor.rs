//! `MpiReactor`: keeps the requests in flight and takes out those that a test
//! finds complete.

use crate::runtime::reactor::ReactorStatus;
use vstd::prelude::*;

verus! {

/// A request in flight: its handle `Q`, the waker `W` of the task that waits,
/// and the slot `S` by which the future learns of the completion.
pub struct PendingReq<Q, W, S> {
    pub req: Q,
    pub waker: W,
    pub slot: S,
}

/// The requests in flight. The count of them is kept apart for `status`.
pub struct MpiReactor<Q, W, S> {
    pending: Vec<PendingReq<Q, W, S>>,
    active: usize,
}

impl<Q, W, S> View for MpiReactor<Q, W, S> {
    type V = Seq<PendingReq<Q, W, S>>;

    closed spec fn view(&self) -> Seq<PendingReq<Q, W, S>> {
        self.pending@
    }
}

/// The requests after the one at `i` was taken out: the last one takes its
/// place.
pub open spec fn taken_out<P>(pending: Seq<P>, i: int) -> Seq<P> {
    if i == pending.len() - 1 {
        pending.drop_last()
    } else {
        pending.update(i, pending.last()).drop_last()
    }
}

/// A pass over the requests after the one at `i` was tested: the requests that
/// are left, and the position of the next one to test.
pub open spec fn after_test<P>(pending: Seq<P>, i: int, complete: bool) -> (Seq<P>, int) {
    if complete {
        (taken_out(pending, i), i)
    } else {
        (pending, i + 1)
    }
}

impl<Q, W, S> MpiReactor<Q, W, S> {
    /// The count is right.
    pub closed spec fn wf(&self) -> bool {
        self.active == self.pending@.len()
    }

    /// No request in flight.
    pub fn new() -> (r: Self)
        ensures
            r.wf(),
            r@.len() == 0,
    {
        MpiReactor { pending: Vec::new(), active: 0 }
    }

    /// A request was started.
    pub fn register(&mut self, req: Q, waker: W, slot: S)
        requires
            old(self).wf(),
        ensures
            final(self).wf(),
            final(self)@ == old(self)@.push(PendingReq { req, waker, slot }),
    {
        self.pending.push(PendingReq { req, waker, slot });
        self.active = self.pending.len();
    }

    /// The number of requests in flight.
    pub fn pending_count(&self) -> (n: usize)
        ensures
            n == self@.len(),
    {
        self.pending.len()
    }

    /// Running as long as a request is in flight.
    pub fn status(&self) -> (s: ReactorStatus)
        requires
            self.wf(),
        ensures
            s == if self@.len() > 0 {
                ReactorStatus::Running
            } else {
                ReactorStatus::Stopped
            },
    {
        if self.active > 0 {
            ReactorStatus::Running
        } else {
            ReactorStatus::Stopped
        }
    }

    /// The request to test at position `i` of a pass; `None` ends the pass.
    pub fn request_mut(&mut self, i: usize) -> (r: Option<&mut Q>)
        requires
            old(self).wf(),
        ensures
            match r {
                Some(q) => {
                    &&& i < old(self)@.len()
                    &&& *q == old(self)@[i as int].req
                    &&& final(self)@ == old(self)@.update(
                        i as int,
                        PendingReq { req: *final(q), ..old(self)@[i as int] },
                    )
                    &&& final(self).wf()
                },
                None => i >= old(self)@.len() && *final(self) == *old(self),
            },
    {
        if i < self.pending.len() {
            Some(&mut self.pending[i].req)
        } else {
            None
        }
    }

    /// The request at `i` was tested; `flag` is non-zero if it is complete.
    /// Returns the position of the next request to test, and the completed
    /// request, which has been taken out.
    pub fn tested(&mut self, i: usize, flag: i32) -> (r: (usize, Option<PendingReq<Q, W, S>>))
        requires
            old(self).wf(),
            i < old(self)@.len(),
        ensures
            final(self).wf(),
            (final(self)@, r.0 as int) == after_test(old(self)@, i as int, flag != 0),
            r.1 == if flag != 0 {
                Some(old(self)@[i as int])
            } else {
                None
            },
    {
        if flag != 0 {
            let entry = self.pending.swap_remove(i);
            self.active = self.active - 1;
            assert(self@ =~= taken_out(old(self)@, i as int));
            (i, Some(entry))
        } else {
            let n: usize = self.pending.len();
            (i + 1, None)
        }
    }
}

/// A pass tests every request exactly once: each test strikes the tested
/// request, and no other, off those still to be tested, and it joins the
/// finished part of the pass exactly if it stays in flight.
pub proof fn pass_tests_each_once<P>(pending: Seq<P>, i: int, complete: bool)
    requires
        0 <= i < pending.len(),
    ensures
        ({
            let (after, next) = after_test(pending, i, complete);
            &&& after.skip(next).to_multiset() == pending.skip(i).to_multiset().remove(pending[i])
            &&& after.take(next) == if complete {
                pending.take(i)
            } else {
                pending.take(i).push(pending[i])
            }
        }),
{
    broadcast use vstd::seq_lib::group_to_multiset_ensures;

    let (after, next) = after_test(pending, i, complete);
    let todo = pending.skip(i);
    let left = after.skip(next);
    assert(todo =~= seq![pending[i]] + todo.skip(1));
    vstd::seq_lib::lemma_multiset_commutative(seq![pending[i]], todo.skip(1));
    assert(seq![pending[i]] =~= Seq::<P>::empty().push(pending[i]));
    assert(todo.skip(1).to_multiset() =~= todo.to_multiset().remove(pending[i]));
    if complete {
        assert(after.take(next) =~= pending.take(i));
        if i == pending.len() - 1 {
            assert(left =~= todo.skip(1));
        } else {
            let rest = todo.skip(1);
            let middle = rest.drop_last();
            assert(rest =~= middle + seq![rest.last()]);
            assert(left =~= seq![rest.last()] + middle);
            vstd::seq_lib::lemma_multiset_commutative(seq![rest.last()], middle);
            vstd::seq_lib::lemma_multiset_commutative(middle, seq![rest.last()]);
            assert(left.to_multiset() =~= rest.to_multiset());
        }
    } else {
        assert(after.take(next) =~= pending.take(i).push(pending[i]));
        assert(left =~= todo.skip(1));
    }
}


/// Taking a request out leaves all others: the last one takes its place, and
/// the rest stay where they are.
pub proof fn last_request_takes_the_place<P>(pending: Seq<P>, i: int, j: int)
    requires
        0 <= i < pending.len(),
        0 <= j < pending.len() - 1,
    ensures
        taken_out(pending, i).len() == pending.len() - 1,
        taken_out(pending, i)[j] == if j == i {
            pending.last()
        } else {
            pending[j]
        },
{
}

} // verus!
