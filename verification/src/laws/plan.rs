//! What is below a value, read off the value alone, and what becomes of it.
//!
//! [`plan`] lists the children of a value in the order in which they are visited, up
//! to what stops the visit. It speaks of nothing but the data that the value holds:
//! type indices, sizes and flag bits are the numbers of the runtime's ABI.
use vstd::prelude::*;

use crate::error::{Error, Fault, Place};
use crate::kind::{DefRegionKind, Phase};
use crate::outcome::{NativeHalt, NativeResult, WalkResult};
use crate::semantics;
use crate::semantics::{Call, Trip};
use crate::step::{Answer, NativeWalker};
use crate::tree::{Content, Entry, Field, Value};

verus! {

/// A child, the region in which it is visited and the place where an error passes out
/// of it; or the error with which the visit of a value's children stops.
pub enum Leg<E> {
    Child { value: Value<E>, region: DefRegionKind, place: Place },
    Stop(Error<E>),
}

/// The children of a value.
pub open spec fn plan<E>(walker: NativeWalker, value: Value<E>, region: DefRegionKind) -> Seq<
    Leg<E>,
> {
    let index = value.type_index;
    if index == 71 || index == 75 {
        match value.content {
            Content::Sequence { length, cells } => sequence_plan(length, cells, region),
            _ => Seq::empty(),
        }
    } else if index == 72 || index == 76 {
        match value.content {
            Content::Mapping { size, iter, entries } => mapping_plan(
                index == 76,
                size,
                iter,
                entries@,
                region,
            ),
            _ => Seq::empty(),
        }
    } else if walker.structural_visit && (value.hook == Some(4i32) || value.hook == Some(68i32)) {
        seq![Leg::Stop(Error::Native(Fault::ForeignHook { type_index: index }))]
    } else if walker.structural_visit && value.hook is Some && value.hook != Some(0i32) {
        seq![Leg::Stop(Error::Native(Fault::InvalidHook))]
    } else if index < 64 {
        Seq::empty()
    } else {
        match value.content {
            Content::Object { fields: Some(fields) } => fields_plan(fields@, 0, region),
            _ => seq![Leg::Stop(Error::Native(Fault::UnregisteredType { type_index: index }))],
        }
    }
}

/// The elements of a sequence, in order.
pub open spec fn sequence_plan<E>(
    length: i64,
    cells: Option<Vec<Value<E>>>,
    region: DefRegionKind,
) -> Seq<Leg<E>> {
    if length < 0 {
        seq![Leg::Stop(Error::Native(Fault::NegativeSequenceSize))]
    } else {
        match cells {
            None => if length == 0 {
                Seq::empty()
            } else {
                seq![Leg::Stop(Error::Native(Fault::NullSequenceData))]
            },
            Some(cells) => if length > usize::MAX {
                seq![Leg::Stop(Error::Native(Fault::SequenceSizeOverflow))]
            } else {
                Seq::new(
                    cells@.len(),
                    |i: int|
                        Leg::Child {
                            value: cells@[i],
                            region,
                            place: Place::SequenceItem { index: i as usize },
                        },
                )
            },
        }
    }
}

/// The keys and values of a map or a dict. A dict that cannot be read to its end stops
/// at once.
pub open spec fn mapping_plan<E>(
    dict: bool,
    size: Result<i64, E>,
    iter: Result<(), E>,
    entries: Seq<Entry<E>>,
    region: DefRegionKind,
) -> Seq<Leg<E>> {
    match size {
        Err(error) => seq![Leg::Stop(Error::Raised(error))],
        Ok(size) => if size < 0 {
            seq![Leg::Stop(Error::Native(Fault::NegativeMapSize))]
        } else if size > usize::MAX {
            seq![Leg::Stop(Error::Native(Fault::MapSizeOverflow))]
        } else if size == 0 {
            Seq::empty()
        } else {
            match iter {
                Err(error) => seq![Leg::Stop(Error::Raised(error))],
                Ok(()) => {
                    let legs = entries_plan(dict, entries, 0, region);
                    match first_stop(legs) {
                        Some(error) => if dict {
                            seq![Leg::Stop(error)]
                        } else {
                            legs
                        },
                        None => legs,
                    }
                },
            }
        },
    }
}

/// The entries of a map or a dict from `i` on: each is read, then its key is visited
/// before its value, and unless it is the last the iterator moves on.
pub open spec fn entries_plan<E>(
    dict: bool,
    entries: Seq<Entry<E>>,
    i: nat,
    region: DefRegionKind,
) -> Seq<Leg<E>>
    decreases entries.len() - i,
{
    if i >= entries.len() {
        Seq::empty()
    } else {
        let entry = entries[i as int];
        let index = i as usize;
        let here = match (entry.key, entry.value) {
            (Err(error), _) => seq![Leg::Stop(Error::Raised(error))],
            (Ok(_), Err(error)) => seq![Leg::Stop(Error::Raised(error))],
            (Ok(key), Ok(value)) => seq![
                Leg::Child {
                    value: key,
                    region,
                    place: if dict {
                        Place::DictKey { index }
                    } else {
                        Place::MapKey { index }
                    },
                },
                Leg::Child {
                    value,
                    region,
                    place: if dict {
                        Place::DictValue { index }
                    } else {
                        Place::MapValue { index }
                    },
                },
            ],
        };
        let moved = if i + 1 < entries.len() && entry.next is Err {
            seq![Leg::Stop(Error::Raised(entry.next->Err_0))]
        } else {
            Seq::empty()
        };
        here + moved + entries_plan(dict, entries, i + 1, region)
    }
}

/// The first error among the legs.
pub open spec fn first_stop<E>(legs: Seq<Leg<E>>) -> Option<Error<E>>
    decreases legs.len(),
{
    if legs.len() == 0 {
        None
    } else {
        match legs[0] {
            Leg::Stop(error) => Some(error),
            Leg::Child { .. } => first_stop(legs.drop_first()),
        }
    }
}

/// The reflected fields of an object from `i` on, without those that have bit 3 set.
/// Bit 12 sets the non-recursive region, bit 4 the recursive one.
pub open spec fn fields_plan<E>(fields: Seq<Field<E>>, i: nat, region: DefRegionKind) -> Seq<Leg<E>>
    decreases fields.len() - i,
{
    if i >= fields.len() {
        Seq::empty()
    } else {
        field_plan(fields[i as int], region) + fields_plan(fields, i + 1, region)
    }
}

pub open spec fn field_plan<E>(field: Field<E>, region: DefRegionKind) -> Seq<Leg<E>> {
    let place = Place::Field { name: field.name };
    if field.flags & 8 != 0 {
        Seq::empty()
    } else {
        match field.getter {
            None => seq![Leg::Stop(Error::Native(Fault::MissingGetter { field: field.name }))],
            Some(Err(error)) => seq![
                Leg::Stop(Error::Within { place, source: Box::new(Error::Raised(error)) }),
            ],
            Some(Ok(value)) => seq![
                Leg::Child {
                    value,
                    region: if field.flags & 4096 != 0 {
                        DefRegionKind::NonRecursive
                    } else if field.flags & 16 != 0 {
                        DefRegionKind::Recursive
                    } else {
                        region
                    },
                    place,
                },
            ],
        }
    }
}

/// The walks of the children one after the other, up to the first that does not end
/// well or the first stop. An error passes the place of its child, an interruption
/// passes as it is.
pub open spec fn journey<P, E>(
    walker: NativeWalker,
    legs: Seq<Leg<E>>,
    answers: Seq<Answer<P, E>>,
    from: nat,
) -> Trip<P, E>
    decreases legs.len(),
{
    if legs.len() == 0 {
        Trip { calls: Seq::empty(), result: Ok(()) }
    } else {
        match legs[0] {
            Leg::Stop(error) => Trip {
                calls: Seq::empty(),
                result: Err(NativeHalt::Error(error)),
            },
            Leg::Child { value, region, place } => {
                let first = semantics::visit(walker, value, region, answers, from);
                match first.result {
                    Ok(()) => {
                        let rest = journey(
                            walker,
                            legs.drop_first(),
                            answers,
                            from + first.calls.len(),
                        );
                        Trip { calls: first.calls + rest.calls, result: rest.result }
                    },
                    Err(NativeHalt::Interrupt(_)) => first,
                    Err(NativeHalt::Error(error)) => Trip {
                        calls: first.calls,
                        result: Err(
                            NativeHalt::Error(Error::Within { place, source: Box::new(error) }),
                        ),
                    },
                }
            },
        }
    }
}

/// A journey in two parts.
pub proof fn lemma_journey_add<P, E>(
    walker: NativeWalker,
    legs: Seq<Leg<E>>,
    more: Seq<Leg<E>>,
    answers: Seq<Answer<P, E>>,
    from: nat,
)
    ensures
        journey(walker, legs + more, answers, from) == ({
            let first = journey(walker, legs, answers, from);
            first.followed_by(journey(walker, more, answers, from + first.calls.len()))
        }),
    decreases legs.len(),
{
    if legs.len() == 0 {
        assert(legs + more =~= more);
        let rest = journey::<P, E>(walker, more, answers, from);
        assert(Seq::empty() + rest.calls =~= rest.calls);
    } else {
        assert((legs + more).drop_first() =~= legs.drop_first() + more);
        if let Leg::Child { value, region, place } = legs[0] {
            let first = semantics::visit::<P, E>(walker, value, region, answers, from);
            if first.result is Ok {
                let next = from + first.calls.len();
                lemma_journey_add(walker, legs.drop_first(), more, answers, next);
                let middle = journey::<P, E>(walker, legs.drop_first(), answers, next);
                let rest = journey::<P, E>(walker, more, answers, next + middle.calls.len());
                assert(first.calls + (middle.calls + rest.calls) =~= (first.calls + middle.calls)
                    + rest.calls);
            }
        }
    }
}

/// A journey of one leg.
pub proof fn lemma_journey_one<P, E>(
    walker: NativeWalker,
    leg: Leg<E>,
    answers: Seq<Answer<P, E>>,
    from: nat,
)
    ensures
        journey(walker, seq![leg], answers, from) == (match leg {
            Leg::Stop(error) => Trip::<P, E>::ends(Err(NativeHalt::Error(error))),
            Leg::Child { value, region, place } => semantics::visit(
                walker,
                value,
                region,
                answers,
                from,
            ).at(place),
        }),
{
    assert(seq![leg].drop_first() =~= Seq::empty());
    reveal_with_fuel(journey, 2);
    if let Leg::Child { value, region, place } = leg {
        let first = semantics::visit::<P, E>(walker, value, region, answers, from);
        assert(first.calls + Seq::empty() =~= first.calls);
    }
}

proof fn lemma_sequence_journey<P, E>(
    walker: NativeWalker,
    cells: Seq<Value<E>>,
    i: nat,
    region: DefRegionKind,
    answers: Seq<Answer<P, E>>,
    from: nat,
)
    requires
        i <= cells.len(),
    ensures
        journey(
            walker,
            Seq::new(
                cells.len(),
                |j: int|
                    Leg::Child {
                        value: cells[j],
                        region,
                        place: Place::SequenceItem { index: j as usize },
                    },
            ).skip(i as int),
            answers,
            from,
        ) == semantics::visit_cells(walker, cells, i, region, answers, from),
    decreases cells.len() - i,
{
    let legs = Seq::new(
        cells.len(),
        |j: int|
            Leg::Child {
                value: cells[j],
                region,
                place: Place::SequenceItem { index: j as usize },
            },
    );
    if i < cells.len() {
        let first = semantics::visit::<P, E>(walker, cells[i as int], region, answers, from);
        assert(legs.skip(i as int).drop_first() =~= legs.skip(i as int + 1));
        lemma_sequence_journey(walker, cells, i + 1, region, answers, from + first.calls.len());
    }
}

proof fn lemma_map_journey<P, E>(
    walker: NativeWalker,
    entries: Seq<Entry<E>>,
    i: nat,
    region: DefRegionKind,
    answers: Seq<Answer<P, E>>,
    from: nat,
)
    ensures
        journey(walker, entries_plan(false, entries, i, region), answers, from)
            == semantics::visit_map(walker, entries, i, region, answers, from),
    decreases entries.len() - i,
{
    if i < entries.len() {
        let entry = entries[i as int];
        let rest = entries_plan(false, entries, i + 1, region);
        let moved = if i + 1 < entries.len() && entry.next is Err {
            seq![Leg::Stop(Error::Raised(entry.next->Err_0))]
        } else {
            Seq::empty()
        };
        if entry.key is Ok && entry.value is Ok {
            let index = i as usize;
            let at_key = Leg::Child {
                value: entry.key->Ok_0,
                region,
                place: Place::MapKey { index },
            };
            let at_value = Leg::Child {
                value: entry.value->Ok_0,
                region,
                place: Place::MapValue { index },
            };
            let first = journey::<P, E>(walker, seq![at_key], answers, from);
            let next = from + first.calls.len();
            let pair = journey::<P, E>(walker, seq![at_key] + seq![at_value], answers, from);
            let after = from + pair.calls.len();
            lemma_journey_one(walker, at_key, answers, from);
            lemma_journey_one(walker, at_value, answers, next);
            lemma_journey_add(walker, seq![at_key], seq![at_value], answers, from);
            lemma_journey_add(walker, seq![at_key] + seq![at_value], moved + rest, answers, from);
            assert(seq![at_key] + seq![at_value] =~= seq![at_key, at_value]);
            assert(entries_plan(false, entries, i, region) =~= seq![at_key, at_value] + (moved
                + rest));
            if moved.len() > 0 {
                assert((moved + rest)[0] == Leg::<E>::Stop(Error::Raised(entry.next->Err_0)));
            } else {
                assert(moved + rest =~= rest);
                lemma_map_journey(walker, entries, i + 1, region, answers, after);
            }
        } else {
            let error = if entry.key is Err {
                entry.key->Err_0
            } else {
                entry.value->Err_0
            };
            assert(entries_plan(false, entries, i, region)[0] == Leg::<E>::Stop(
                Error::Raised(error),
            ));
        }
    }
}

proof fn lemma_dict_stop<E>(entries: Seq<Entry<E>>, i: nat, region: DefRegionKind)
    ensures
        first_stop(entries_plan(true, entries, i, region)) == match semantics::dict_error(
            entries,
            i,
        ) {
            Some(error) => Some(Error::Raised(error)),
            None => None,
        },
    decreases entries.len() - i,
{
    if i < entries.len() {
        let entry = entries[i as int];
        let legs = entries_plan(true, entries, i, region);
        let rest = entries_plan(true, entries, i + 1, region);
        lemma_dict_stop(entries, i + 1, region);
        if entry.key is Ok && entry.value is Ok {
            let moved = if i + 1 < entries.len() && entry.next is Err {
                seq![Leg::Stop(Error::Raised(entry.next->Err_0))]
            } else {
                Seq::empty()
            };
            assert(legs.drop_first().drop_first() =~= moved + rest);
            assert(first_stop(legs) == first_stop(legs.drop_first()));
            assert(legs.drop_first()[0] == legs[1]);
            assert(first_stop(legs.drop_first()) == first_stop(moved + rest));
            if moved.len() > 0 {
                assert((moved + rest)[0] == moved[0]);
            } else {
                assert(moved + rest =~= rest);
            }
        }
    }
}

proof fn lemma_dict_journey<P, E>(
    walker: NativeWalker,
    entries: Seq<Entry<E>>,
    i: nat,
    region: DefRegionKind,
    answers: Seq<Answer<P, E>>,
    from: nat,
)
    requires
        semantics::dict_error(entries, i) is None,
    ensures
        journey(walker, entries_plan(true, entries, i, region), answers, from)
            == semantics::visit_dict(walker, entries, i, region, answers, from),
    decreases entries.len() - i,
{
    if i < entries.len() {
        let entry = entries[i as int];
        let rest = entries_plan(true, entries, i + 1, region);
        let index = i as usize;
        let at_key = Leg::Child {
            value: entry.key->Ok_0,
            region,
            place: Place::DictKey { index },
        };
        let at_value = Leg::Child {
            value: entry.value->Ok_0,
            region,
            place: Place::DictValue { index },
        };
        let first = journey::<P, E>(walker, seq![at_key], answers, from);
        let next = from + first.calls.len();
        let pair = journey::<P, E>(walker, seq![at_key] + seq![at_value], answers, from);
        let after = from + pair.calls.len();
        lemma_journey_one(walker, at_key, answers, from);
        lemma_journey_one(walker, at_value, answers, next);
        lemma_journey_add(walker, seq![at_key], seq![at_value], answers, from);
        lemma_journey_add(walker, seq![at_key] + seq![at_value], rest, answers, from);
        assert(entries_plan(true, entries, i, region) =~= seq![at_key] + seq![at_value] + rest);
        if i + 1 == entries.len() {
            assert(rest =~= Seq::empty());
            assert(semantics::visit_dict::<P, E>(
                walker,
                entries,
                i + 1,
                region,
                answers,
                after,
            ) == Trip::<P, E>::ends(Ok(())));
        } else {
            lemma_dict_journey(walker, entries, i + 1, region, answers, after);
        }
    }
}

proof fn lemma_field_journey<P, E>(
    walker: NativeWalker,
    field: Field<E>,
    region: DefRegionKind,
    answers: Seq<Answer<P, E>>,
    from: nat,
)
    ensures
        journey(walker, field_plan(field, region), answers, from) == semantics::visit_field(
            walker,
            field,
            region,
            answers,
            from,
        ),
{
    let legs = field_plan(field, region);
    if legs.len() > 0 {
        assert(legs =~= seq![legs[0]]);
        lemma_journey_one(walker, legs[0], answers, from);
    }
}

proof fn lemma_fields_journey<P, E>(
    walker: NativeWalker,
    fields: Seq<Field<E>>,
    i: nat,
    region: DefRegionKind,
    answers: Seq<Answer<P, E>>,
    from: nat,
)
    ensures
        journey(walker, fields_plan(fields, i, region), answers, from) == semantics::visit_fields(
            walker,
            fields,
            i,
            region,
            answers,
            from,
        ),
    decreases fields.len() - i,
{
    if i < fields.len() {
        let field = fields[i as int];
        let here = field_plan(field, region);
        let rest = fields_plan(fields, i + 1, region);
        let trip = journey::<P, E>(walker, here, answers, from);
        lemma_field_journey(walker, field, region, answers, from);
        lemma_journey_add(walker, here, rest, answers, from);
        lemma_fields_journey(walker, fields, i + 1, region, answers, from + trip.calls.len());
    }
}

/// The walk of what is below a value follows its plan.
pub proof fn law_children_follow_the_plan<P, E>(
    walker: NativeWalker,
    value: Value<E>,
    region: DefRegionKind,
    answers: Seq<Answer<P, E>>,
    from: nat,
)
    ensures
        semantics::children(walker, value, region, answers, from) == journey(
            walker,
            plan(walker, value, region),
            answers,
            from,
        ),
{
    let legs = plan(walker, value, region);
    let index = value.type_index;
    if legs.len() == 1 && legs[0] is Stop {
        assert(legs =~= seq![legs[0]]);
        lemma_journey_one(walker, legs[0], answers, from);
    }
    if index == 71 || index == 75 {
        if let Content::Sequence { length, cells: Some(cells) } = value.content {
            if 0 <= length <= usize::MAX {
                lemma_sequence_journey(walker, cells@, 0, region, answers, from);
                assert(legs.skip(0) =~= legs);
            }
        }
    } else if index == 72 || index == 76 {
        if let Content::Mapping { size: Ok(size), iter: Ok(()), entries } = value.content {
            if 0 < size <= usize::MAX {
                if index == 76 {
                    lemma_dict_stop(entries@, 0, region);
                    if semantics::dict_error(entries@, 0) is None {
                        lemma_dict_journey(walker, entries@, 0, region, answers, from);
                    }
                } else {
                    lemma_map_journey(walker, entries@, 0, region, answers, from);
                }
            }
        }
    } else if index >= 64 {
        if let Content::Object { fields: Some(fields) } = value.content {
            lemma_fields_journey(walker, fields@, 0, region, answers, from);
        }
    }
}

/// The halt once it has left a value: an error that leaves an object has passed it.
pub open spec fn passed<P, E>(halt: NativeHalt<P, E>, type_index: i32) -> NativeHalt<P, E> {
    match halt {
        NativeHalt::Error(error) if type_index >= 64 => NativeHalt::Error(
            Error::Within { place: Place::Object { type_index }, source: Box::new(error) },
        ),
        _ => halt,
    }
}

/// What a callback's answer asks for: its own error goes before the halt of a visit
/// that it made, and that before its flow. `None` lets the walk go on.
pub open spec fn halt_of<P, E>(answer: Answer<P, E>, type_index: i32) -> Option<NativeHalt<P, E>> {
    match (answer.result, answer.halted) {
        (Err(error), _) => Some(passed(NativeHalt::Error(error), type_index)),
        (Ok(_), Some(halt)) => Some(passed(halt, type_index)),
        (Ok(WalkResult::Interrupt), None) => Some(NativeHalt::Interrupt(None)),
        (Ok(WalkResult::InterruptWith(payload)), None) => Some(
            NativeHalt::Interrupt(Some(payload)),
        ),
        _ => None,
    }
}

/// The walk of a value is its enter callback, the walk of what is below it, and its
/// exit callback. An answer that halts ends it with that halt; a skip ends it well; an
/// error from below passes the value if it is an object. The none value has no walk.
pub proof fn law_walk_of_a_value<P, E>(
    walker: NativeWalker,
    value: Value<E>,
    region: DefRegionKind,
    answers: Seq<Answer<P, E>>,
    from: nat,
)
    ensures
        ({
            let trip = semantics::visit(walker, value, region, answers, from);
            let enter = seq![Call { phase: Phase::Enter, value, region }];
            let exit = seq![Call { phase: Phase::Exit, value, region }];
            let entered = halt_of(answers[from as int], value.type_index);
            let below = journey(walker, plan(walker, value, region), answers, from + 1);
            let exited = halt_of(
                answers[from + 1 + below.calls.len() as int],
                value.type_index,
            );
            if value.type_index == 0 {
                trip.calls.len() == 0 && trip.result is Ok
            } else if entered is Some {
                trip.calls == enter && trip.result == NativeResult::<P, E>::Err(entered->0)
            } else if answers[from as int].result == Ok::<WalkResult<P>, Error<E>>(
                WalkResult::Skip,
            ) {
                trip.calls == enter && trip.result is Ok
            } else {
                match below.result {
                    Err(halt) => {
                        &&& trip.calls == enter + below.calls
                        &&& trip.result == NativeResult::<P, E>::Err(
                            passed(halt, value.type_index),
                        )
                    },
                    Ok(()) => {
                        &&& trip.calls == enter + below.calls + exit
                        &&& trip.result == match exited {
                            Some(halt) => NativeResult::<P, E>::Err(halt),
                            None => NativeResult::<P, E>::Ok(()),
                        }
                    },
                }
            }
        }),
{
    law_children_follow_the_plan(walker, value, region, answers, from + 1);
}

/// A field with bit 3 set is left out, whatever its other bits: it adds no callback and
/// no error.
pub proof fn law_ignored_field_is_left_out<P, E>(
    walker: NativeWalker,
    field: Field<E>,
    other: i64,
    region: DefRegionKind,
    answers: Seq<Answer<P, E>>,
    from: nat,
)
    ensures
        ({
            let trip = semantics::visit_field(
                walker,
                Field { flags: other | 8, ..field },
                region,
                answers,
                from,
            );
            trip.calls.len() == 0 && trip.result is Ok
        }),
        field.flags & 8 != 0 ==> {
            let trip = semantics::visit_field(walker, field, region, answers, from);
            trip.calls.len() == 0 && trip.result is Ok
        },
{
    assert((other | 8i64) & 8 != 0) by (bit_vector);
    lemma_field_journey(walker, Field { flags: other | 8, ..field }, region, answers, from);
    lemma_field_journey(walker, field, region, answers, from);
}

/// A field with bit 3 clear has its value visited: in the non-recursive region if bit
/// 12 is set, else in the recursive one if bit 4 is set, else in the region of its
/// object, whatever its other bits.
pub proof fn law_field_bits_set_the_region<P, E>(
    walker: NativeWalker,
    field: Field<E>,
    child: Value<E>,
    region: DefRegionKind,
    answers: Seq<Answer<P, E>>,
    from: nat,
)
    requires
        field.flags & 8 == 0,
        field.getter == Some(Ok::<Value<E>, E>(child)),
    ensures
        ({
            let trip = semantics::visit_field(walker, field, region, answers, from);
            let inner = if field.flags & 4096 != 0 {
                DefRegionKind::NonRecursive
            } else if field.flags & 16 != 0 {
                DefRegionKind::Recursive
            } else {
                region
            };
            let visit = semantics::visit(walker, child, inner, answers, from);
            &&& trip.calls == visit.calls
            &&& trip.result is Ok <==> visit.result is Ok
            &&& visit.result matches Err(NativeHalt::Interrupt(payload)) ==> trip.result
                == visit.result
            &&& visit.result matches Err(NativeHalt::Error(error)) ==> trip.result
                == NativeResult::<P, E>::Err(
                NativeHalt::Error(
                    Error::Within {
                        place: Place::Field { name: field.name },
                        source: Box::new(error),
                    },
                ),
            )
        }),
{
    lemma_field_journey(walker, field, region, answers, from);
    let legs = field_plan(field, region);
    assert(legs =~= seq![legs[0]]);
    lemma_journey_one(walker, legs[0], answers, from);
}

} // verus!
