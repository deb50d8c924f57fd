//! What the small decisions of a walk come to, in the numbers of the runtime's ABI.
use core::ops::ControlFlow;
use vstd::prelude::*;

use crate::error::{Error, ErrorKind, Fault, Place};
use crate::kind;
use crate::kind::{DefRegionKind, Phase, WalkOrder};
use crate::laws::plan;
use crate::outcome;
use crate::outcome::{NativeHalt, NativeResult, VisitOutcome, VisitResult, WalkResult};
use crate::step;
use crate::step::Answer;
use crate::tree::{Content, Entry, Field, Value};
use crate::visit::DispatchVisitor;

verus! {

/// Arrays and lists, maps and dicts, and objects, by their type indices.
pub proof fn law_type_indices(type_index: i32)
    ensures
        kind::is_sequence(type_index) <==> type_index == 71 || type_index == 75,
        kind::is_map(type_index) <==> type_index == 72 || type_index == 76,
        kind::is_object(type_index) <==> type_index >= 64,
{
}

/// A field's region is decided by bit 12, then bit 4, then the object's region; its other
/// bits play no part.
pub proof fn law_region_bits(flags: i64, other: i64, inherited: DefRegionKind)
    ensures
        flags & 4096 != 0 ==> kind::region_of_field(flags, inherited)
            == DefRegionKind::NonRecursive,
        flags & 4096 == 0 && flags & 16 != 0 ==> kind::region_of_field(flags, inherited)
            == DefRegionKind::Recursive,
        flags & 4096 == 0 && flags & 16 == 0 ==> kind::region_of_field(flags, inherited)
            == inherited,
        kind::region_of_field(other | 4096, inherited) == DefRegionKind::NonRecursive,
        flags & 4112 == other & 4112 ==> kind::region_of_field(flags, inherited)
            == kind::region_of_field(other, inherited),
{
    assert((other | 4096i64) & 4096 != 0) by (bit_vector);
    if flags & 4112 == other & 4112 {
        assert((flags & 4096 != 0) == (other & 4096 != 0) && (flags & 16 != 0) == (other & 16
            != 0)) by (bit_vector)
            requires
                flags & 4112 == other & 4112,
        ;
    }
}

/// A hook is refused unless it is none: as foreign code if it is a function, else as no
/// function.
pub proof fn law_hook_judgement(type_index: i32, hook: i32)
    ensures
        step::hook_fault(type_index, None) is None,
        step::hook_fault(type_index, Some(hook)) is None <==> hook == 0,
        step::hook_fault(type_index, Some(hook)) == Some(Fault::ForeignHook { type_index }) <==> hook
            == 4 || hook == 68,
        step::hook_fault(type_index, Some(hook)) == Some(Fault::InvalidHook) <==> hook != 0 && hook
            != 4 && hook != 68,
{
}

/// A sequence is sound where its size is not negative, fits a `usize`, and is nought if
/// there is no data; else the fault is the first of these that fails to hold.
pub proof fn law_sequence_sizes(size: i64, null: bool)
    ensures
        0 <= size <= usize::MAX && (null ==> size == 0) <==> step::sequence_fault(size, null) is None,
        size < 0 <==> step::sequence_fault(size, null) == Some(Fault::NegativeSequenceSize),
        size > 0 && null <==> step::sequence_fault(size, null) == Some(Fault::NullSequenceData),
        size > usize::MAX && !null <==> step::sequence_fault(size, null) == Some(
            Fault::SequenceSizeOverflow,
        ),
{
}

/// A map is sound where its size is not negative and fits a `usize`.
pub proof fn law_map_sizes(size: i64)
    ensures
        0 <= size <= usize::MAX <==> step::map_fault(size) is None,
        size < 0 <==> step::map_fault(size) == Some(Fault::NegativeMapSize),
        size > usize::MAX <==> step::map_fault(size) == Some(Fault::MapSizeOverflow),
{
}

/// The callback's error goes before the halt of a visit that it made, whatever that halt,
/// and both before what it asked for. Errors that leave an object pass it.
pub proof fn law_answers_are_settled<P, E>(
    answer: Answer<P, E>,
    type_index: i32,
    error: Error<E>,
    halt: NativeHalt<P, E>,
    flow: WalkResult<P>,
    payload: P,
)
    ensures
        step::verdict(
            Answer { result: Err(error), halted: answer.halted },
            type_index,
        ) == Err::<bool, NativeHalt<P, E>>(
            NativeHalt::Error(
                if type_index >= 64 {
                    Error::Within { place: Place::Object { type_index }, source: Box::new(error) }
                } else {
                    error
                },
            ),
        ),
        step::verdict(Answer { result: Ok(flow), halted: Some(halt) }, type_index) == Err::<
            bool,
            NativeHalt<P, E>,
        >(plan::passed(halt, type_index)),
        step::verdict(
            Answer::<P, E> { result: Ok(WalkResult::Advance), halted: None },
            type_index,
        ) == Ok::<bool, NativeHalt<P, E>>(true),
        step::verdict(
            Answer::<P, E> { result: Ok(WalkResult::Skip), halted: None },
            type_index,
        ) == Ok::<bool, NativeHalt<P, E>>(false),
        step::verdict(
            Answer::<P, E> { result: Ok(WalkResult::Interrupt), halted: None },
            type_index,
        ) == Err::<bool, NativeHalt<P, E>>(NativeHalt::Interrupt(None)),
        step::verdict(
            Answer::<P, E> { result: Ok(WalkResult::InterruptWith(payload)), halted: None },
            type_index,
        ) == Err::<bool, NativeHalt<P, E>>(NativeHalt::Interrupt(Some(payload))),
{
}

/// Errors take along the places that they pass, interruptions do not; a value leaves a
/// place only if it is an object.
pub proof fn law_places_are_passed<P, E>(
    error: Error<E>,
    payload: Option<P>,
    place: Place,
    type_index: i32,
)
    ensures
        NativeHalt::<P, E>::Error(error).past(place) == NativeHalt::<P, E>::Error(
            Error::Within { place, source: Box::new(error) },
        ),
        NativeHalt::<P, E>::Interrupt(payload).past(place) == NativeHalt::<P, E>::Interrupt(
            payload,
        ),
        type_index >= 64 ==> NativeHalt::<P, E>::Error(error).past_value(type_index)
            == NativeHalt::<P, E>::Error(
            Error::Within { place: Place::Object { type_index }, source: Box::new(error) },
        ),
        type_index < 64 ==> NativeHalt::<P, E>::Error(error).past_value(type_index)
            == NativeHalt::<P, E>::Error(error),
        NativeHalt::<P, E>::Interrupt(payload).past_value(type_index) == NativeHalt::<
            P,
            E,
        >::Interrupt(payload),
{
}

/// The caller is told that the walk was made to the end, the interruption's payload, or
/// the error, and can tell the three apart.
pub proof fn law_results_are_reported<P, E>(
    result: NativeResult<P, E>,
    payload: Option<P>,
    error: Error<E>,
)
    ensures
        result is Ok <==> outcome::reported(result) == Ok::<VisitOutcome<P>, Error<E>>(
            ControlFlow::Continue(()),
        ),
        result == NativeResult::<P, E>::Err(NativeHalt::Interrupt(payload))
            <==> outcome::reported(result) == Ok::<VisitOutcome<P>, Error<E>>(
            ControlFlow::Break(payload),
        ),
        result == NativeResult::<P, E>::Err(NativeHalt::Error(error)) <==> outcome::reported(result)
            == Err::<VisitOutcome<P>, Error<E>>(error),
{
}

/// A handler's answer counts as it is; without one the walk goes on.
pub proof fn law_missing_handler_advances<P, E>(answer: VisitResult<P, E>)
    ensures
        outcome::answer_or_advance(Some(answer)) == answer,
        outcome::answer_or_advance(None::<VisitResult<P, E>>) == VisitResult::<P, E>::Ok(
            WalkResult::Advance,
        ),
{
}

/// Handlers run in one of the two phases: on enter in pre-order, on exit in post-order.
pub proof fn law_order_picks_the_phase(order: WalkOrder, phase: Phase)
    ensures
        (DispatchVisitor { order }).handles(phase) <==> (order is PreOrder <==> phase is Enter),
{
}

/// Dicts are read through the functions for dicts, all other values through those for
/// maps.
pub proof fn law_map_function_names(type_index: i32)
    ensures
        kind::size_function(76)@ == "ffi.DictSize"@,
        kind::iter_function(76)@ == "ffi.DictForwardIterFunctor"@,
        type_index != 76 ==> kind::size_function(type_index)@ == "ffi.MapSize"@,
        type_index != 76 ==> kind::iter_function(type_index)@ == "ffi.MapForwardIterFunctor"@,
{
}

/// Every fault is a runtime error but for a hook that is no function, which is a type
/// error.
pub proof fn law_fault_kinds(fault: Fault)
    ensures
        fault.spec_kind().name()@ == if fault is InvalidHook {
            "TypeError"@
        } else {
            "RuntimeError"@
        },
        fault.spec_kind() == ErrorKind::Type <==> fault is InvalidHook,
{
}

/// A value can be walked where its containers hold as much as they report, however much
/// that is; nothing else is asked of it.
pub proof fn law_only_sizes_are_asked<E>(value: Value<E>)
    ensures
        value.wf() <==> match value.content {
            Content::Inline => true,
            Content::Sequence { length, cells: Some(cells) } => {
                &&& length >= 0 ==> cells@.len() == length
                &&& forall|i: int| 0 <= i < cells@.len() ==> (#[trigger] cells@[i]).wf()
            },
            Content::Sequence { cells: None, .. } => true,
            Content::Mapping { size, entries, .. } => {
                &&& size matches Ok(size) ==> size >= 0 ==> entries@.len() == size
                &&& forall|i: int|
                    0 <= i < entries@.len() ==> {
                        &&& (#[trigger] entries@[i]).key matches Ok(key) ==> key.wf()
                        &&& entries@[i].value matches Ok(value) ==> value.wf()
                    }
            },
            Content::Object { fields: Some(fields) } => forall|i: int|
                0 <= i < fields@.len() ==> ((#[trigger] fields@[i]).getter matches Some(Ok(child))
                    ==> child.wf()),
            Content::Object { fields: None } => true,
        },
{
    reveal_with_fuel(Value::wf, 2);
    reveal_with_fuel(Entry::wf, 2);
    reveal_with_fuel(Field::wf, 2);
    if let Content::Mapping { entries, .. } = value.content {
        assert(forall|i: int|
            0 <= i < entries@.len() ==> (#[trigger] entries@[i]).wf() == {
                &&& entries@[i].key matches Ok(key) ==> key.wf()
                &&& entries@[i].value matches Ok(value) ==> value.wf()
            });
    }
}

} // verus!
