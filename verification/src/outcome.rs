//! What a callback asks for, how a walk stops, and what the caller gets back.
use core::ops::ControlFlow;
use vstd::prelude::*;

use crate::error::{Error, Place};
use crate::kind::TYPE_STATIC_OBJECT_BEGIN;

verus! {

/// What a callback asks the walker to do with the current value.
#[derive(Debug, PartialEq, Eq)]
pub enum WalkResult<P> {
    /// Continue and visit this value's children.
    Advance,
    /// Continue without visiting this value's children or firing its exit hook.
    Skip,
    /// Halt the entire traversal.
    Interrupt,
    /// Halt the entire traversal and return a payload to the caller.
    InterruptWith(P),
}

impl<P> WalkResult<P> {
    /// Halt traversal with a payload.
    pub fn interrupt_with<T: Into<P>>(payload: T) -> (flow: Self)
        ensures
            flow matches WalkResult::InterruptWith(carried) && call_ensures(
                <T as Into<P>>::into,
                (payload,),
                carried,
            ),
    {
        WalkResult::InterruptWith(payload.into())
    }
}

/// Fallible answer of a callback.
pub type VisitResult<P, E> = Result<WalkResult<P>, Error<E>>;

/// Convert either an infallible or fallible typed handler result.
///
/// This keeps simple handlers terse while allowing a handler to return
/// [`VisitResult`] and use `?`.
pub trait IntoVisitResult<P, E>: Sized {
    /// Whether the value can stand for this answer.
    open spec fn stands_for(self, result: VisitResult<P, E>) -> bool {
        true
    }

    fn into_visit_result(self) -> (result: VisitResult<P, E>)
        ensures
            self.stands_for(result),
    ;
}

impl<P, E> IntoVisitResult<P, E> for WalkResult<P> {
    open spec fn stands_for(self, result: VisitResult<P, E>) -> bool {
        result == VisitResult::<P, E>::Ok(self)
    }

    fn into_visit_result(self) -> (result: VisitResult<P, E>) {
        Ok(self)
    }
}

impl<P, E> IntoVisitResult<P, E> for VisitResult<P, E> {
    open spec fn stands_for(self, result: VisitResult<P, E>) -> bool {
        result == self
    }

    fn into_visit_result(self) -> (result: VisitResult<P, E>) {
        self
    }
}

/// Why a walk stopped before its end.
///
/// The payload of an interruption without one is `None`, which stands for the
/// runtime's none value.
#[derive(Debug, PartialEq, Eq)]
pub enum NativeHalt<P, E> {
    Interrupt(Option<P>),
    Error(Error<E>),
}

impl<P, E> From<Error<E>> for NativeHalt<P, E> {
    fn from(error: Error<E>) -> (halt: Self) {
        NativeHalt::Error(error)
    }
}

impl<P, E> vstd::std_specs::convert::FromSpecImpl<Error<E>> for NativeHalt<P, E> {
    open spec fn obeys_from_spec() -> bool {
        true
    }

    open spec fn from_spec(error: Error<E>) -> Self {
        NativeHalt::Error(error)
    }
}

/// Result of walking one value.
pub type NativeResult<P, E> = Result<(), NativeHalt<P, E>>;

/// Result of a completed walk.
///
/// `Continue(())` means the whole graph was visited. `Break(payload)` means a
/// handler interrupted it.
pub type VisitOutcome<P> = ControlFlow<Option<P>>;

impl<P, E> NativeHalt<P, E> {
    /// The halt once it has passed `place`: an error takes the place along, an
    /// interruption is left as it is.
    pub open spec fn past(self, place: Place) -> Self {
        match self {
            NativeHalt::Error(error) => NativeHalt::Error(
                Error::Within { place, source: Box::new(error) },
            ),
            NativeHalt::Interrupt(payload) => self,
        }
    }

    /// The halt once it has passed a value of the given type: objects leave their
    /// place in an error, inline values leave none.
    pub open spec fn past_value(self, type_index: i32) -> Self {
        if type_index < TYPE_STATIC_OBJECT_BEGIN {
            self
        } else {
            self.past(Place::Object { type_index })
        }
    }
}

/// Adds `place` to the places that an error passed.
pub fn with_error_context<P, E>(halt: NativeHalt<P, E>, place: Place) -> (passed: NativeHalt<P, E>)
    ensures
        passed == halt.past(place),
{
    match halt {
        NativeHalt::Error(error) => NativeHalt::Error(error.within(place)),
        NativeHalt::Interrupt(payload) => NativeHalt::Interrupt(payload),
    }
}

/// What the caller is told of a walk with the given result.
pub open spec fn reported<P, E>(result: NativeResult<P, E>) -> Result<VisitOutcome<P>, Error<E>> {
    match result {
        Ok(()) => Ok(ControlFlow::Continue(())),
        Err(NativeHalt::Error(error)) => Err(error),
        Err(NativeHalt::Interrupt(payload)) => Ok(ControlFlow::Break(payload)),
    }
}

/// Hands the result of a walk to its caller.
pub fn finish<P, E>(result: NativeResult<P, E>) -> (outcome: Result<VisitOutcome<P>, Error<E>>)
    ensures
        outcome == reported(result),
{
    match result {
        Ok(()) => Ok(ControlFlow::Continue(())),
        Err(NativeHalt::Error(error)) => Err(error),
        Err(NativeHalt::Interrupt(payload)) => Ok(ControlFlow::Break(payload)),
    }
}

/// The answer that a visitor without a matching handler stands for.
pub open spec fn answer_or_advance<P, E>(answer: Option<VisitResult<P, E>>) -> VisitResult<P, E> {
    match answer {
        Some(result) => result,
        None => Ok(WalkResult::Advance),
    }
}

/// The answer of a visitor's handlers: a visitor without a matching one lets the walk
/// go on.
pub fn or_advance<P, E>(answer: Option<VisitResult<P, E>>) -> (result: VisitResult<P, E>)
    ensures
        result == answer_or_advance(answer),
{
    match answer {
        Some(result) => result,
        None => Ok(WalkResult::Advance),
    }
}

/// Whether a context may still visit, where `halted` tells how a visit that was made
/// through it halted.
pub fn may_visit<P, E>(halted: &Option<NativeHalt<P, E>>) -> (may: bool)
    ensures
        may == (*halted is None),
{
    halted.is_none()
}

/// Keeps how a visit halted. Tells whether it went well.
pub fn absorb<P, E>(halted: &mut Option<NativeHalt<P, E>>, result: NativeResult<P, E>) -> (visited:
    bool)
    ensures
        visited == (result is Ok),
        *final(halted) == match result {
            Ok(()) => *old(halted),
            Err(halt) => Some(halt),
        },
{
    match result {
        Ok(()) => true,
        Err(halt) => {
            *halted = Some(halt);
            false
        },
    }
}

} // verus!
