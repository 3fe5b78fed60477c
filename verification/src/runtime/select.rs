//! Two futures, whichever completes first.

use crate::runtime::task::Poll;
use vstd::prelude::*;

verus! {

/// Which of two futures completed first, with its output.
#[derive(Debug, Clone, Copy, PartialEq, Eq)]
pub enum Either<A, B> {
    /// The first future completed first.
    Left(A),
    /// The second future completed first.
    Right(B),
}

/// What a poll of two futures does next.
#[derive(Debug, Clone, Copy, PartialEq, Eq)]
pub enum SelectStep<A, B> {
    /// Poll the first future and report it by `after_first`.
    PollFirst,
    /// Poll the second future and report it by `after_second`.
    PollSecond,
    /// The poll is over, with this outcome.
    Done(Poll<Either<A, B>>),
}

/// Two futures of which the first to complete wins; the other is dropped.
///
/// A poll begins with what `begin` names, and goes on with what each report
/// names until it is done.
pub struct Select2<F1, F2> {
    future1: Option<F1>,
    future2: Option<F2>,
}

/// How a poll begins: with the first future, if it runs.
pub open spec fn first_step<A, B>(first_runs: bool, second_runs: bool) -> SelectStep<A, B> {
    if first_runs {
        SelectStep::PollFirst
    } else if second_runs {
        SelectStep::PollSecond
    } else {
        SelectStep::Done(Poll::Pending)
    }
}

/// What follows the first future: its output wins; as long as it is pending,
/// the second has its turn.
pub open spec fn step_after_first<A, B>(second_runs: bool, outcome: Poll<A>) -> SelectStep<A, B> {
    match outcome {
        Poll::Ready(a) => SelectStep::Done(Poll::Ready(Either::Left(a))),
        Poll::Pending => if second_runs {
            SelectStep::PollSecond
        } else {
            SelectStep::Done(Poll::Pending)
        },
    }
}

/// What follows the second future: the poll is over.
pub open spec fn step_after_second<A, B>(outcome: Poll<B>) -> SelectStep<A, B> {
    match outcome {
        Poll::Ready(b) => SelectStep::Done(Poll::Ready(Either::Right(b))),
        Poll::Pending => SelectStep::Done(Poll::Pending),
    }
}

/// The steps of one poll from `step` on, where polling the first future would
/// give `outcome1` and polling the second `outcome2`.
pub open spec fn steps_from<A, B>(
    step: SelectStep<A, B>,
    second_runs: bool,
    outcome1: Poll<A>,
    outcome2: Poll<B>,
) -> Seq<SelectStep<A, B>>
    decreases
            match step {
                SelectStep::PollFirst => 2int,
                SelectStep::PollSecond => 1,
                SelectStep::Done(_) => 0,
            },
{
    match step {
        SelectStep::PollFirst => seq![step] + steps_from(
            step_after_first(second_runs, outcome1),
            second_runs,
            outcome1,
            outcome2,
        ),
        SelectStep::PollSecond => seq![step] + steps_from(
            step_after_second(outcome2),
            second_runs,
            outcome1,
            outcome2,
        ),
        SelectStep::Done(_) => seq![step],
    }
}

impl<F1, F2> Select2<F1, F2> {
    /// The first future, as long as it runs.
    pub closed spec fn first_view(&self) -> Option<F1> {
        self.future1
    }

    /// The second future, as long as it runs.
    pub closed spec fn second_view(&self) -> Option<F2> {
        self.future2
    }

    /// Both futures run.
    pub fn new(future1: F1, future2: F2) -> (s: Self)
        ensures
            s.first_view() == Some(future1),
            s.second_view() == Some(future2),
    {
        Select2 { future1: Some(future1), future2: Some(future2) }
    }

    /// The first future, to be polled.
    pub fn first(&mut self) -> (r: Option<&mut F1>)
        ensures
            final(self).second_view() == old(self).second_view(),
            match r {
                Some(f) => {
                    &&& old(self).first_view() == Some(*f)
                    &&& final(self).first_view() == Some(*final(f))
                },
                None => {
                    &&& old(self).first_view() is None
                    &&& final(self).first_view() is None
                },
            },
    {
        self.future1.as_mut()
    }

    /// The second future, to be polled.
    pub fn second(&mut self) -> (r: Option<&mut F2>)
        ensures
            final(self).first_view() == old(self).first_view(),
            match r {
                Some(f) => {
                    &&& old(self).second_view() == Some(*f)
                    &&& final(self).second_view() == Some(*final(f))
                },
                None => {
                    &&& old(self).second_view() is None
                    &&& final(self).second_view() is None
                },
            },
    {
        self.future2.as_mut()
    }

    /// Begin a poll.
    pub fn begin<A, B>(&self) -> (step: SelectStep<A, B>)
        ensures
            step == first_step::<A, B>(self.first_view() is Some, self.second_view() is Some),
    {
        if self.future1.is_some() {
            SelectStep::PollFirst
        } else if self.future2.is_some() {
            SelectStep::PollSecond
        } else {
            SelectStep::Done(Poll::Pending)
        }
    }

    /// The first future was polled: if it is ready, both futures are dropped
    /// and it has won; else it is the second one's turn.
    pub fn after_first<A, B>(&mut self, outcome: Poll<A>) -> (step: SelectStep<A, B>)
        ensures
            step == step_after_first::<A, B>(old(self).second_view() is Some, outcome),
            if outcome is Ready {
                final(self).first_view() is None && final(self).second_view() is None
            } else {
                *final(self) == *old(self)
            },
    {
        match outcome {
            Poll::Ready(a) => {
                self.future1 = None;
                self.future2 = None;
                SelectStep::Done(Poll::Ready(Either::Left(a)))
            },
            Poll::Pending => if self.future2.is_some() {
                SelectStep::PollSecond
            } else {
                SelectStep::Done(Poll::Pending)
            },
        }
    }

    /// The second future was polled: if it is ready, both futures are dropped
    /// and it has won.
    pub fn after_second<A, B>(&mut self, outcome: Poll<B>) -> (step: SelectStep<A, B>)
        ensures
            step == step_after_second::<A, B>(outcome),
            if outcome is Ready {
                final(self).first_view() is None && final(self).second_view() is None
            } else {
                *final(self) == *old(self)
            },
    {
        match outcome {
            Poll::Ready(b) => {
                self.future1 = None;
                self.future2 = None;
                SelectStep::Done(Poll::Ready(Either::Right(b)))
            },
            Poll::Pending => SelectStep::Done(Poll::Pending),
        }
    }
}

/// A poll of two running futures polls the first one first, and the second one
/// only if the first is pending: of two that are ready the first wins, and the
/// poll is pending exactly if both are.
pub proof fn first_future_goes_first<A, B>(outcome1: Poll<A>, outcome2: Poll<B>)
    ensures
        ({
            let steps = steps_from(first_step::<A, B>(true, true), true, outcome1, outcome2);
            match (outcome1, outcome2) {
                (Poll::Ready(a), _) => steps == seq![
                    SelectStep::PollFirst,
                    SelectStep::Done(Poll::Ready(Either::<A, B>::Left(a))),
                ],
                (Poll::Pending, Poll::Ready(b)) => steps == seq![
                    SelectStep::PollFirst,
                    SelectStep::PollSecond,
                    SelectStep::Done(Poll::Ready(Either::<A, B>::Right(b))),
                ],
                (Poll::Pending, Poll::Pending) => steps == seq![
                    SelectStep::PollFirst,
                    SelectStep::PollSecond,
                    SelectStep::<A, B>::Done(Poll::Pending),
                ],
            }
        }),
{
    reveal_with_fuel(steps_from, 3);
}

/// Once one future has won, neither is left, and a further poll polls nothing.
pub proof fn decided_select_polls_nothing<A, B>(outcome1: Poll<A>, outcome2: Poll<B>)
    ensures
        steps_from(first_step::<A, B>(false, false), false, outcome1, outcome2) == seq![
            SelectStep::<A, B>::Done(Poll::Pending),
        ],
{
}

/// A future that is left alone is polled alone, and wins when it is ready.
pub proof fn single_future_decides<A, B>(outcome1: Poll<A>, outcome2: Poll<B>)
    ensures
        first_step::<A, B>(true, false) == SelectStep::<A, B>::PollFirst,
        first_step::<A, B>(false, true) == SelectStep::<A, B>::PollSecond,
        step_after_first::<A, B>(false, outcome1) == SelectStep::<A, B>::Done(
            match outcome1 {
                Poll::Ready(a) => Poll::Ready(Either::Left(a)),
                Poll::Pending => Poll::Pending,
            },
        ),
        step_after_second::<A, B>(outcome2) == SelectStep::<A, B>::Done(
            match outcome2 {
                Poll::Ready(b) => Poll::Ready(Either::Right(b)),
                Poll::Pending => Poll::Pending,
            },
        ),
{
}

/// Run two futures until the first of them completes.
pub fn select<F1, F2>(future1: F1, future2: F2) -> (s: Select2<F1, F2>)
    ensures
        s.first_view() == Some(future1),
        s.second_view() == Some(future2),
{
    Select2::new(future1, future2)
}

} // verus!
