//! A single-threaded, cooperative, frame-stepped scheduler for resumable
//! computations.
//!
//! A task suspends itself by yielding a [`CoroutineCondition`]; the
//! [`CoroutineManager`] polls every task once per call of
//! [`CoroutineManager::update`] and resumes those whose condition holds.
pub mod coroutine;
pub mod laws;
pub mod yield_instruction;

pub use coroutine::{
    Coroutine, CoroutineCondition, CoroutineHandle, CoroutineManager, CoroutineQueue,
    Generator, GeneratorState,
};
pub use yield_instruction::{WaitUntil, YieldInstruction};
