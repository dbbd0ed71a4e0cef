//! Asking whether work is to be given up, one question after the other.
use crate::pipeline::request::StopToken;
use vstd::prelude::*;

verus! {

/// What is asked whether work is to be given up. The questions that are put to it in the course of
/// one work are numbered from zero on.
pub trait StopFlag {
    /// It can be asked.
    spec fn can_ask(&self) -> bool;

    /// It may give this answer to the question with this number.
    spec fn may_answer(&self, asked: nat, answer: bool) -> bool;

    /// Asks now, after `asked` other questions.
    fn raised(&self, asked: usize) -> (answer: bool)
        requires
            self.can_ask(),
        ensures
            self.may_answer(asked as nat, answer),
    ;
}

impl<F: Fn() -> bool> StopFlag for F {
    open spec fn can_ask(&self) -> bool {
        call_requires(*self, ())
    }

    open spec fn may_answer(&self, asked: nat, answer: bool) -> bool {
        call_ensures(*self, (), answer)
    }

    fn raised(&self, asked: usize) -> (answer: bool) {
        self()
    }
}

/// A flag that is never raised.
pub struct Never;

impl StopFlag for Never {
    open spec fn can_ask(&self) -> bool {
        true
    }

    open spec fn may_answer(&self, asked: nat, answer: bool) -> bool {
        !answer
    }

    fn raised(&self, asked: usize) -> (answer: bool) {
        false
    }
}

impl StopFlag for StopToken {
    open spec fn can_ask(&self) -> bool {
        true
    }

    open spec fn may_answer(&self, asked: nat, answer: bool) -> bool {
        call_ensures(StopToken::stopped_after, (self, asked as usize), answer)
    }

    fn raised(&self, asked: usize) -> (answer: bool) {
        self.stopped_after(asked)
    }
}

/// The number that a question goes by. Those beyond the largest number share it.
pub open spec fn number_of(asked: nat) -> nat {
    if asked <= usize::MAX {
        asked
    } else {
        usize::MAX as nat
    }
}

/// The flag gave this answer after `asked` other questions.
pub open spec fn answered<S: StopFlag>(flag: &S, asked: nat, answer: bool) -> bool {
    flag.may_answer(number_of(asked), answer)
}

/// The first `n` questions were all answered no.
pub open spec fn all_no<S: StopFlag>(flag: &S, n: nat) -> bool {
    forall|asked: nat| asked < n ==> #[trigger] answered(flag, asked, false)
}

/// The number of the next question.
pub(crate) fn next_number(number: usize, Ghost(asked): Ghost<nat>) -> (r: usize)
    requires
        number == number_of(asked),
    ensures
        r == number_of(asked + 1),
{
    if number < usize::MAX {
        number + 1
    } else {
        number
    }
}

} // verus!
