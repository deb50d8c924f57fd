//! How a walk stops: the callback that halts it is its last one.
use core::ops::ControlFlow;
use vstd::prelude::*;

use crate::error::{Error, Place};
use crate::kind;
use crate::kind::DefRegionKind;
use crate::outcome;
use crate::laws::plan;
use crate::outcome::{NativeHalt, NativeResult, VisitOutcome, WalkResult};
use crate::semantics;
use crate::semantics::Trip;
use crate::step;
use crate::step::{Answer, NativeWalker};
use crate::tree::{Content, Entry, Field, Value};

verus! {

/// Whether `outer` is `inner` on its way out: the same interruption, or an error
/// with the same origin that has passed more places.
pub open spec fn carries<P, E>(outer: NativeHalt<P, E>, inner: NativeHalt<P, E>) -> bool {
    match inner {
        NativeHalt::Interrupt(payload) => outer == inner,
        NativeHalt::Error(error) => outer matches NativeHalt::Error(passed) && {
            &&& passed.origin() == error.origin()
            &&& error.places().is_prefix_of(passed.places())
        },
    }
}

/// What the answer of the callback at position `i` of a trip means.
pub open spec fn verdict_at<P, E>(
    trip: Trip<P, E>,
    answers: Seq<Answer<P, E>>,
    from: nat,
    i: int,
) -> Result<bool, NativeHalt<P, E>> {
    step::verdict(answers[from + i], trip.calls[i].value.type_index)
}

/// Only the last callback of a trip can halt it, and then the trip ends with that
/// halt; it is interrupted only by a callback; and no callback sees the none value.
pub open spec fn orderly<P, E>(trip: Trip<P, E>, answers: Seq<Answer<P, E>>, from: nat) -> bool {
    let last = trip.calls.len() - 1;
    &&& forall|i: int| 0 <= i < last ==> #[trigger] verdict_at(trip, answers, from, i) is Ok
    &&& last >= 0 ==> (verdict_at(trip, answers, from, last) matches Err(halt) ==> trip.result matches Err(
        end,
    ) && carries(end, halt))
    &&& trip.result matches Err(NativeHalt::Interrupt(payload)) ==> last >= 0 && verdict_at(
        trip,
        answers,
        from,
        last,
    ) == Err::<bool, NativeHalt<P, E>>(NativeHalt::Interrupt(payload))
    &&& forall|i: int|
        0 <= i < trip.calls.len() ==> (#[trigger] trip.calls[i]).value.type_index != 0
}

proof fn lemma_past_carries<P, E>(halt: NativeHalt<P, E>, inner: NativeHalt<P, E>, place: Place)
    requires
        carries(halt, inner),
    ensures
        carries(halt.past(place), inner),
{
    if let NativeHalt::Error(error) = halt {
        let outer = Error::Within { place, source: Box::new(error) };
        assert(outer.origin() == error.origin());
        assert(outer.places() == error.places().push(place));
        if let NativeHalt::Error(start) = inner {
            assert(start.places().is_prefix_of(error.places().push(place)));
        }
    }
}

proof fn lemma_passed_carries<P, E>(halt: NativeHalt<P, E>, type_index: i32)
    ensures
        carries(halt.past_value(type_index), halt),
        halt.past_value(type_index) == plan::passed(halt, type_index),
{
    if let NativeHalt::Error(error) = halt {
        assert(error.places().is_prefix_of(error.places()));
        lemma_past_carries(halt, halt, Place::Object { type_index });
    }
}

proof fn lemma_orderly_at<P, E>(
    trip: Trip<P, E>,
    answers: Seq<Answer<P, E>>,
    from: nat,
    place: Place,
)
    requires
        orderly(trip, answers, from),
    ensures
        orderly(trip.at(place), answers, from),
{
    let moved = trip.at(place);
    assert forall|i: int| 0 <= i < trip.calls.len() implies #[trigger] verdict_at(
        moved,
        answers,
        from,
        i,
    ) == verdict_at(trip, answers, from, i) by {}
    if let Err(halt) = trip.result {
        let last = trip.calls.len() - 1;
        if last >= 0 {
            if let Err(inner) = verdict_at(trip, answers, from, last) {
                lemma_past_carries(halt, inner, place);
            }
        }
    }
}

proof fn lemma_orderly_followed_by<P, E>(
    trip: Trip<P, E>,
    rest: Trip<P, E>,
    answers: Seq<Answer<P, E>>,
    from: nat,
)
    requires
        orderly(trip, answers, from),
        trip.result is Ok ==> orderly(rest, answers, from + trip.calls.len()),
    ensures
        orderly(trip.followed_by(rest), answers, from),
{
    if trip.result is Ok {
        let both = trip.followed_by(rest);
        let n = trip.calls.len() as int;
        assert forall|i: int| 0 <= i < n implies #[trigger] verdict_at(both, answers, from, i)
            == verdict_at(trip, answers, from, i) by {
            assert(both.calls[i] == trip.calls[i]);
        }
        assert forall|i: int| n <= i < both.calls.len() implies #[trigger] verdict_at(
            both,
            answers,
            from,
            i,
        ) == verdict_at(rest, answers, from + trip.calls.len(), i - n) by {
            assert(both.calls[i] == rest.calls[i - n]);
        }
        let last = both.calls.len() - 1;
        assert forall|i: int| 0 <= i < last implies #[trigger] verdict_at(
            both,
            answers,
            from,
            i,
        ) is Ok by {
            if i < n {
                assert(verdict_at(trip, answers, from, i) is Ok);
            } else {
                assert(verdict_at(rest, answers, from + trip.calls.len(), i - n) is Ok);
            }
        }
        assert forall|i: int| 0 <= i < both.calls.len() implies (#[trigger] both.calls[
            i
        ]).value.type_index != 0 by {
            if i < n {
                assert(both.calls[i] == trip.calls[i]);
            } else {
                assert(both.calls[i] == rest.calls[i - n]);
            }
        }
        if rest.calls.len() == 0 && n > 0 {
            assert(verdict_at(both, answers, from, last) == verdict_at(trip, answers, from, last));
        } else if rest.calls.len() > 0 {
            assert(verdict_at(both, answers, from, last) == verdict_at(
                rest,
                answers,
                from + trip.calls.len(),
                last - n,
            ));
        }
    }
}

proof fn lemma_orderly_visit<P, E>(
    walker: NativeWalker,
    value: Value<E>,
    region: DefRegionKind,
    answers: Seq<Answer<P, E>>,
    from: nat,
)
    ensures
        orderly(semantics::visit(walker, value, region, answers, from), answers, from),
    decreases value, 1nat, 0nat,
{
    let trip = semantics::visit::<P, E>(walker, value, region, answers, from);
    if value.type_index != 0 {
        let here = step::verdict(answers[from as int], value.type_index);
        assert(verdict_at(trip, answers, from, 0) == here);
        if here == Ok::<bool, NativeHalt<P, E>>(true) {
            lemma_orderly_children(walker, value, region, answers, from + 1);
            let below = semantics::children::<P, E>(walker, value, region, answers, from + 1);
            let n = below.calls.len();
            assert forall|i: int| 1 <= i <= n implies #[trigger] verdict_at(trip, answers, from, i)
                == verdict_at(below, answers, from + 1, i - 1) by {
                assert(trip.calls[i] == below.calls[i - 1]);
            }
            assert forall|i: int| 0 <= i < trip.calls.len() implies (#[trigger] trip.calls[
                i
            ]).value.type_index != 0 by {
                if 1 <= i <= n {
                    assert(trip.calls[i] == below.calls[i - 1]);
                }
            }
            match below.result {
                Err(halt) => {
                    if value.type_index >= 64 && n > 0 {
                        if let Err(inner) = verdict_at(below, answers, from + 1, n - 1) {
                            lemma_past_carries(
                                halt,
                                inner,
                                Place::Object { type_index: value.type_index },
                            );
                        }
                    }
                    assert forall|i: int| 0 <= i < trip.calls.len() - 1 implies #[trigger] verdict_at(
                        trip,
                        answers,
                        from,
                        i,
                    ) is Ok by {
                        if i >= 1 {
                            assert(verdict_at(below, answers, from + 1, i - 1) is Ok);
                        }
                    }
                },
                Ok(()) => {
                    assert forall|i: int| 0 <= i < trip.calls.len() - 1 implies #[trigger] verdict_at(
                        trip,
                        answers,
                        from,
                        i,
                    ) is Ok by {
                        if i >= 1 {
                            if i < n {
                                assert(verdict_at(below, answers, from + 1, i - 1) is Ok);
                            }
                        }
                    }
                    let last = trip.calls.len() - 1;
                    assert(verdict_at(trip, answers, from, last) == step::verdict(
                        answers[from + 1 + n as int],
                        value.type_index,
                    ));
                },
            }
        }
    }
}

proof fn lemma_orderly_children<P, E>(
    walker: NativeWalker,
    value: Value<E>,
    region: DefRegionKind,
    answers: Seq<Answer<P, E>>,
    from: nat,
)
    ensures
        orderly(semantics::children(walker, value, region, answers, from), answers, from),
    decreases value, 0nat, 0nat,
{
    match value.content {
        Content::Sequence { cells: Some(cells), .. } => {
            lemma_orderly_cells(walker, cells@, 0, region, answers, from);
        },
        Content::Mapping { entries, .. } => {
            lemma_orderly_dict(walker, entries@, 0, region, answers, from);
            lemma_orderly_map(walker, entries@, 0, region, answers, from);
        },
        Content::Object { fields: Some(fields) } => {
            lemma_orderly_fields(walker, fields@, 0, region, answers, from);
        },
        _ => {},
    }
}

proof fn lemma_orderly_cells<P, E>(
    walker: NativeWalker,
    cells: Seq<Value<E>>,
    i: nat,
    region: DefRegionKind,
    answers: Seq<Answer<P, E>>,
    from: nat,
)
    ensures
        orderly(semantics::visit_cells(walker, cells, i, region, answers, from), answers, from),
    decreases cells, 0nat, cells.len() - i,
{
    if i < cells.len() {
        let place = Place::SequenceItem { index: i as usize };
        let trip = semantics::visit::<P, E>(walker, cells[i as int], region, answers, from);
        let next = from + trip.calls.len();
        lemma_orderly_visit(walker, cells[i as int], region, answers, from);
        lemma_orderly_at(trip, answers, from, place);
        lemma_orderly_cells(walker, cells, i + 1, region, answers, next);
        lemma_orderly_followed_by(
            trip.at(place),
            semantics::visit_cells(walker, cells, i + 1, region, answers, next),
            answers,
            from,
        );
    }
}

/// Two children one after the other.
proof fn lemma_orderly_pair<P, E>(
    walker: NativeWalker,
    key: Value<E>,
    value: Value<E>,
    key_place: Place,
    value_place: Place,
    region: DefRegionKind,
    answers: Seq<Answer<P, E>>,
    from: nat,
)
    requires
        orderly(semantics::visit(walker, key, region, answers, from), answers, from),
        ({
            let next = from + semantics::visit(
                walker,
                key,
                region,
                answers,
                from,
            ).calls.len();
            orderly(semantics::visit(walker, value, region, answers, next), answers, next)
        }),
    ensures
        ({
            let first = semantics::visit(walker, key, region, answers, from).at(key_place);
            let next = from + first.calls.len();
            let second = semantics::visit(walker, value, region, answers, next).at(value_place);
            orderly(first.followed_by(second), answers, from)
        }),
{
    let first = semantics::visit::<P, E>(walker, key, region, answers, from);
    let next = from + first.calls.len();
    let second = semantics::visit::<P, E>(walker, value, region, answers, next);
    lemma_orderly_at(first, answers, from, key_place);
    lemma_orderly_at(second, answers, next, value_place);
    lemma_orderly_followed_by(first.at(key_place), second.at(value_place), answers, from);
}

proof fn lemma_orderly_dict<P, E>(
    walker: NativeWalker,
    entries: Seq<Entry<E>>,
    i: nat,
    region: DefRegionKind,
    answers: Seq<Answer<P, E>>,
    from: nat,
)
    ensures
        orderly(semantics::visit_dict(walker, entries, i, region, answers, from), answers, from),
    decreases entries, 0nat, entries.len() - i,
{
    if i < entries.len() {
        let entry = entries[i as int];
        if entry.key is Ok && entry.value is Ok {
            let (key, value) = (entry.key->Ok_0, entry.value->Ok_0);
            let index = i as usize;
            let key_place = Place::DictKey { index };
            let value_place = Place::DictValue { index };
            let first = semantics::visit::<P, E>(walker, key, region, answers, from).at(key_place);
            let next = from + first.calls.len();
            let pair = first.followed_by(
                semantics::visit(walker, value, region, answers, next).at(value_place),
            );
            lemma_orderly_visit(walker, key, region, answers, from);
            lemma_orderly_visit(walker, value, region, answers, next);
            lemma_orderly_pair(
                walker,
                key,
                value,
                key_place,
                value_place,
                region,
                answers,
                from,
            );
            let after = from + pair.calls.len();
            lemma_orderly_dict(walker, entries, i + 1, region, answers, after);
            lemma_orderly_followed_by(
                pair,
                semantics::visit_dict(walker, entries, i + 1, region, answers, after),
                answers,
                from,
            );
        }
    }
}

proof fn lemma_orderly_map<P, E>(
    walker: NativeWalker,
    entries: Seq<Entry<E>>,
    i: nat,
    region: DefRegionKind,
    answers: Seq<Answer<P, E>>,
    from: nat,
)
    ensures
        orderly(semantics::visit_map(walker, entries, i, region, answers, from), answers, from),
    decreases entries, 0nat, entries.len() - i,
{
    if i < entries.len() {
        let entry = entries[i as int];
        if entry.key is Ok && entry.value is Ok {
            let (key, value) = (entry.key->Ok_0, entry.value->Ok_0);
            let index = i as usize;
            let key_place = Place::MapKey { index };
            let value_place = Place::MapValue { index };
            let first = semantics::visit::<P, E>(walker, key, region, answers, from).at(key_place);
            let next = from + first.calls.len();
            let pair = first.followed_by(
                semantics::visit(walker, value, region, answers, next).at(value_place),
            );
            lemma_orderly_visit(walker, key, region, answers, from);
            lemma_orderly_visit(walker, value, region, answers, next);
            lemma_orderly_pair(
                walker,
                key,
                value,
                key_place,
                value_place,
                region,
                answers,
                from,
            );
            let after = from + pair.calls.len();
            let rest = if i + 1 == entries.len() {
                Trip::ends(Ok(()))
            } else {
                match entry.next {
                    Err(error) => Trip::raises(error),
                    Ok(()) => semantics::visit_map(walker, entries, i + 1, region, answers, after),
                }
            };
            lemma_orderly_map(walker, entries, i + 1, region, answers, after);
            lemma_orderly_followed_by(pair, rest, answers, from);
        }
    }
}

proof fn lemma_orderly_fields<P, E>(
    walker: NativeWalker,
    fields: Seq<Field<E>>,
    i: nat,
    region: DefRegionKind,
    answers: Seq<Answer<P, E>>,
    from: nat,
)
    ensures
        orderly(semantics::visit_fields(walker, fields, i, region, answers, from), answers, from),
    decreases fields, 0nat, fields.len() - i,
{
    if i < fields.len() {
        let field = fields[i as int];
        let trip = semantics::visit_field::<P, E>(walker, field, region, answers, from);
        let next = from + trip.calls.len();
        if let Some(Ok(child)) = field.getter {
            let inner = kind::region_of_field(field.flags, region);
            lemma_orderly_visit(walker, child, inner, answers, from);
            lemma_orderly_at(
                semantics::visit(walker, child, inner, answers, from),
                answers,
                from,
                Place::Field { name: field.name },
            );
        }
        assert(orderly(trip, answers, from));
        lemma_orderly_fields(walker, fields, i + 1, region, answers, next);
        lemma_orderly_followed_by(
            trip,
            semantics::visit_fields(walker, fields, i + 1, region, answers, next),
            answers,
            from,
        );
    }
}

/// The callback that halts a walk is the last one that runs, and the walk ends with
/// its halt: an interruption reaches the caller as it is, an error keeps its origin
/// and the places that it had passed.
pub proof fn law_halting_callback_is_last<P, E>(
    walker: NativeWalker,
    value: Value<E>,
    region: DefRegionKind,
    answers: Seq<Answer<P, E>>,
    i: int,
)
    requires
        0 <= i < semantics::visit(walker, value, region, answers, 0).calls.len(),
        plan::halt_of(
            answers[i],
            semantics::visit(walker, value, region, answers, 0).calls[i].value.type_index,
        ) is Some,
    ensures
        ({
            let trip = semantics::visit(walker, value, region, answers, 0);
            &&& i == trip.calls.len() - 1
            &&& trip.result matches Err(end) && carries(
                end,
                plan::halt_of(answers[i], trip.calls[i].value.type_index)->0,
            )
        }),
{
    let trip = semantics::visit::<P, E>(walker, value, region, answers, 0);
    lemma_orderly_visit(walker, value, region, answers, 0);
    assert(verdict_at(trip, answers, 0, i) is Err);
}

/// A halt of a visit that a callback made through its context ends the whole walk, unless
/// the callback itself failed: no callback runs any more, an interruption reaches the
/// caller with its payload if it has one, and an error keeps its origin and the places
/// that it had passed.
pub proof fn law_nested_halt_ends_the_walk<P, E>(
    walker: NativeWalker,
    value: Value<E>,
    region: DefRegionKind,
    answers: Seq<Answer<P, E>>,
    i: int,
    halt: NativeHalt<P, E>,
)
    requires
        0 <= i < semantics::visit(walker, value, region, answers, 0).calls.len(),
        answers[i].result is Ok,
        answers[i].halted == Some(halt),
    ensures
        ({
            let trip = semantics::visit(walker, value, region, answers, 0);
            &&& i == trip.calls.len() - 1
            &&& match halt {
                NativeHalt::Interrupt(payload) => {
                    &&& trip.result == NativeResult::<P, E>::Err(NativeHalt::Interrupt(payload))
                    &&& outcome::reported(trip.result) == Ok::<VisitOutcome<P>, Error<E>>(
                        ControlFlow::Break(payload),
                    )
                },
                NativeHalt::Error(error) => {
                    &&& trip.result matches Err(NativeHalt::Error(end))
                    &&& end.origin() == error.origin()
                    &&& error.places().is_prefix_of(end.places())
                    &&& outcome::reported(trip.result) == Err::<VisitOutcome<P>, Error<E>>(end)
                },
            }
        }),
{
    let trip = semantics::visit::<P, E>(walker, value, region, answers, 0);
    let index = trip.calls[i].value.type_index;
    lemma_orderly_visit(walker, value, region, answers, 0);
    assert(verdict_at(trip, answers, 0, i) is Err);
    lemma_passed_carries(halt, index);
}

/// The error of a callback ends the whole walk, whatever visits the callback made: no
/// callback runs any more, and the error reaches the caller with its origin and the
/// places that it had passed.
pub proof fn law_callback_error_ends_the_walk<P, E>(
    walker: NativeWalker,
    value: Value<E>,
    region: DefRegionKind,
    answers: Seq<Answer<P, E>>,
    i: int,
    error: Error<E>,
)
    requires
        0 <= i < semantics::visit(walker, value, region, answers, 0).calls.len(),
        answers[i].result == Err::<WalkResult<P>, Error<E>>(error),
    ensures
        ({
            let trip = semantics::visit(walker, value, region, answers, 0);
            &&& i == trip.calls.len() - 1
            &&& trip.result matches Err(NativeHalt::Error(end))
            &&& end.origin() == error.origin()
            &&& error.places().is_prefix_of(end.places())
            &&& outcome::reported(trip.result) == Err::<VisitOutcome<P>, Error<E>>(end)
        }),
{
    let trip = semantics::visit::<P, E>(walker, value, region, answers, 0);
    let index = trip.calls[i].value.type_index;
    lemma_orderly_visit(walker, value, region, answers, 0);
    assert(verdict_at(trip, answers, 0, i) is Err);
    lemma_passed_carries(NativeHalt::<P, E>::Error(error), index);
}

/// A callback that advances or skips, and whose visits went well, does not end the walk:
/// if it is the last to run, the walk has ended well or has come to an error of its own.
pub proof fn law_other_answers_end_nothing<P, E>(
    walker: NativeWalker,
    value: Value<E>,
    region: DefRegionKind,
    answers: Seq<Answer<P, E>>,
)
    requires
        ({
            let last = semantics::visit(walker, value, region, answers, 0).calls.len() - 1;
            last >= 0 ==> {
                &&& answers[last].halted is None
                &&& answers[last].result matches Ok(flow) && (flow is Advance || flow is Skip)
            }
        }),
    ensures
        ({
            let trip = semantics::visit(walker, value, region, answers, 0);
            !(trip.result matches Err(NativeHalt::Interrupt(_)))
        }),
{
    lemma_orderly_visit(walker, value, region, answers, 0);
}

/// No callback runs on the none value.
pub proof fn law_none_is_not_visited<P, E>(
    walker: NativeWalker,
    value: Value<E>,
    region: DefRegionKind,
    answers: Seq<Answer<P, E>>,
    i: int,
)
    requires
        0 <= i < semantics::visit(walker, value, region, answers, 0).calls.len(),
    ensures
        semantics::visit(walker, value, region, answers, 0).calls[i].value.type_index != 0,
{
    lemma_orderly_visit(walker, value, region, answers, 0);
}

/// The caller is told of an interruption exactly where the last callback asked for
/// it, and gets the payload that this callback gave.
pub proof fn law_interruption_is_reported<P, E>(
    walker: NativeWalker,
    value: Value<E>,
    region: DefRegionKind,
    answers: Seq<Answer<P, E>>,
    payload: Option<P>,
)
    ensures
        ({
            let trip = semantics::visit(walker, value, region, answers, 0);
            let last = trip.calls.len() - 1;
            outcome::reported(trip.result) == Ok::<VisitOutcome<P>, Error<E>>(
                ControlFlow::Break(payload),
            ) <==> last >= 0 && answers[last].result is Ok && match answers[last].halted {
                Some(halt) => halt == NativeHalt::<P, E>::Interrupt(payload),
                None => match payload {
                    Some(carried) => answers[last].result->Ok_0 == WalkResult::InterruptWith(
                        carried,
                    ),
                    None => answers[last].result->Ok_0 is Interrupt,
                },
            }
        }),
{
    lemma_orderly_visit(walker, value, region, answers, 0);
}

/// A callback that halts nothing itself but asks to interrupt the walk ends it: the
/// caller gets no payload, or the one that the callback gave.
pub proof fn law_interrupt_ends_the_walk<P, E>(
    walker: NativeWalker,
    value: Value<E>,
    region: DefRegionKind,
    answers: Seq<Answer<P, E>>,
    i: int,
)
    requires
        0 <= i < semantics::visit(walker, value, region, answers, 0).calls.len(),
        answers[i].halted is None,
        answers[i].result matches Ok(flow) && (flow is Interrupt || flow is InterruptWith),
    ensures
        ({
            let trip = semantics::visit(walker, value, region, answers, 0);
            &&& i == trip.calls.len() - 1
            &&& outcome::reported(trip.result) == Ok::<VisitOutcome<P>, Error<E>>(
                ControlFlow::Break(
                    match answers[i].result->Ok_0 {
                        WalkResult::InterruptWith(payload) => Some(payload),
                        _ => None,
                    },
                ),
            )
        }),
{
    lemma_orderly_visit(walker, value, region, answers, 0);
    let trip = semantics::visit::<P, E>(walker, value, region, answers, 0);
    assert(verdict_at(trip, answers, 0, i) is Err);
}

/// An error that leaves the walk of an object has passed it: the object's type is the
/// last of the places that the error tells.
pub proof fn law_errors_name_the_object<P, E>(
    walker: NativeWalker,
    value: Value<E>,
    region: DefRegionKind,
    answers: Seq<Answer<P, E>>,
    from: nat,
)
    requires
        value.type_index >= 64,
        semantics::visit(walker, value, region, answers, from).result matches Err(halt)
            && halt is Error,
    ensures
        semantics::visit(walker, value, region, answers, from).result matches Err(
            NativeHalt::Error(error),
        ) && error.places().last() == (Place::Object { type_index: value.type_index }),
{
    if let Err(NativeHalt::Error(error)) = semantics::visit::<P, E>(
        walker,
        value,
        region,
        answers,
        from,
    ).result {
        assert(error is Within && error->place == (Place::Object { type_index: value.type_index }));
    }
}

} // verus!
