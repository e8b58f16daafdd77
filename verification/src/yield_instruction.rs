//! Custom resume conditions: the [`YieldInstruction`] capability and the
//! predicate-backed [`WaitUntil`].
use vstd::prelude::*;

verus! {

/// A resume condition with arbitrary logic behind it.
///
/// The scheduler asks `should_resume` at most once per tick for each task that
/// waits on the instruction, and resumes the task when the answer is `true`.
/// The answer may change back and forth between ticks.
pub trait YieldInstruction {
    /// The answers that `should_resume` may give in the instruction's present
    /// state. An implementation that says nothing here may give either.
    open spec fn may_answer(&self, answer: bool) -> bool {
        true
    }

    /// Whether the waiting task should be resumed this tick.
    fn should_resume(&self) -> (answer: bool)
        ensures
            self.may_answer(answer),
    ;
}

/// Suspends a task until the owned predicate returns `true`.
pub struct WaitUntil<F: Fn() -> bool> {
    predicate: F,
}

impl<F: Fn() -> bool> WaitUntil<F> {
    /// The predicate can be called at any time.
    #[verifier::type_invariant]
    spec fn callable(self) -> bool {
        call_requires(self.predicate, ())
    }

    /// The predicate that the instruction owns.
    pub closed spec fn predicate(&self) -> F {
        self.predicate
    }

    /// Wraps `predicate`, which must accept a call in every state.
    pub fn new(predicate: F) -> (instruction: Box<Self>)
        requires
            call_requires(predicate, ()),
        ensures
            instruction.predicate() == predicate,
    {
        Box::new(Self { predicate })
    }
}

impl<F: Fn() -> bool> YieldInstruction for WaitUntil<F> {
    /// The answers are the results that the predicate may return.
    open spec fn may_answer(&self, answer: bool) -> bool {
        call_ensures(self.predicate(), (), answer)
    }

    fn should_resume(&self) -> (answer: bool) {
        proof {
            use_type_invariant(self);
        }
        (self.predicate)()
    }
}

} // verus!
