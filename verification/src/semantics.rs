//! What walking a value means.
//!
//! [`visit`] says for a value which callbacks run, in which order and with which
//! definition region, and how the walk of the value ends, as a function of what
//! the callbacks answer: the callback that runs first gets `answers[from]`, the
//! next one `answers[from + 1]`, and so on.
use vstd::prelude::*;

use crate::error::{Error, Fault, Place};
use crate::kind;
use crate::kind::{DefRegionKind, Phase, FLAG_SEQ_HASH_IGNORE, TYPE_DICT, TYPE_NONE};
use crate::outcome::{NativeHalt, NativeResult};
use crate::step;
use crate::step::{Answer, NativeWalker};
use crate::tree::{Content, Entry, Field, Value};

verus! {

/// One run of a callback.
pub struct Call<E> {
    pub phase: Phase,
    pub value: Value<E>,
    pub region: DefRegionKind,
}

/// The callbacks that run on a part of a walk, and the result of that part.
#[verifier::ext_equal]
pub struct Trip<P, E> {
    pub calls: Seq<Call<E>>,
    pub result: NativeResult<P, E>,
}

impl<P, E> Trip<P, E> {
    /// No callback runs.
    pub open spec fn ends(result: NativeResult<P, E>) -> Self {
        Trip { calls: Seq::empty(), result }
    }

    /// The walker finds a fault.
    pub open spec fn fails(fault: Fault) -> Self {
        Trip::ends(Err(NativeHalt::Error(Error::Native(fault))))
    }

    /// The runtime raises an error.
    pub open spec fn raises(error: E) -> Self {
        Trip::ends(Err(NativeHalt::Error(Error::Raised(error))))
    }

    /// The part lies at `place`.
    pub open spec fn at(self, place: Place) -> Self {
        match self.result {
            Ok(()) => self,
            Err(halt) => Trip { result: Err(halt.past(place)), ..self },
        }
    }

    /// The part and, if it went well, `rest`.
    pub open spec fn followed_by(self, rest: Self) -> Self {
        match self.result {
            Ok(()) => Trip { calls: self.calls + rest.calls, result: rest.result },
            Err(_) => self,
        }
    }
}

/// Walk of one value: its enter callback, its children, its exit callback.
pub open spec fn visit<P, E>(
    walker: NativeWalker,
    value: Value<E>,
    region: DefRegionKind,
    answers: Seq<Answer<P, E>>,
    from: nat,
) -> Trip<P, E>
    decreases value, 1nat, 0nat,
{
    if value.type_index == TYPE_NONE {
        Trip::ends(Ok(()))
    } else {
        let enter = seq![Call { phase: Phase::Enter, value, region }];
        match step::verdict(answers[from as int], value.type_index) {
            Err(halt) => Trip { calls: enter, result: Err(halt) },
            Ok(false) => Trip { calls: enter, result: Ok(()) },
            Ok(true) => {
                let below = children(walker, value, region, answers, from + 1);
                match below.result {
                    Err(halt) => Trip {
                        calls: enter + below.calls,
                        result: Err(halt.past_value(value.type_index)),
                    },
                    Ok(()) => Trip {
                        calls: enter + below.calls + seq![
                            Call { phase: Phase::Exit, value, region },
                        ],
                        result: match step::verdict(
                            answers[from + 1 + below.calls.len() as int],
                            value.type_index,
                        ) {
                            Ok(_) => Ok(()),
                            Err(halt) => Err(halt),
                        },
                    },
                }
            },
        }
    }
}

/// Walk of a value's children: those of a container are its elements, those of
/// any other object its reflected fields, unless its type has a hook.
pub open spec fn children<P, E>(
    walker: NativeWalker,
    value: Value<E>,
    region: DefRegionKind,
    answers: Seq<Answer<P, E>>,
    from: nat,
) -> Trip<P, E>
    decreases value, 0nat, 0nat,
{
    if kind::is_sequence(value.type_index) {
        let (size, null) = value.header();
        match step::sequence_fault(size, null) {
            Some(fault) => Trip::fails(fault),
            None => match value.content {
                Content::Sequence { cells: Some(cells), .. } => visit_cells(
                    walker,
                    cells@,
                    0,
                    region,
                    answers,
                    from,
                ),
                _ => Trip::ends(Ok(())),
            },
        }
    } else if kind::is_map(value.type_index) {
        match value.content {
            Content::Mapping { size, iter, entries } => match size {
                Err(error) => Trip::raises(error),
                Ok(size) => match step::map_fault(size) {
                    Some(fault) => Trip::fails(fault),
                    None => if size == 0 {
                        Trip::ends(Ok(()))
                    } else if iter is Err {
                        Trip::raises(iter->Err_0)
                    } else if value.type_index == TYPE_DICT {
                        match dict_error(entries@, 0) {
                            Some(error) => Trip::raises(error),
                            None => visit_dict(walker, entries@, 0, region, answers, from),
                        }
                    } else {
                        visit_map(walker, entries@, 0, region, answers, from)
                    },
                },
            },
            _ => Trip::ends(Ok(())),
        }
    } else if walker.structural_visit && step::hook_fault(value.type_index, value.hook) is Some {
        Trip::fails(step::hook_fault(value.type_index, value.hook)->0)
    } else if !kind::is_object(value.type_index) {
        Trip::ends(Ok(()))
    } else {
        match value.content {
            Content::Object { fields: Some(fields) } => visit_fields(
                walker,
                fields@,
                0,
                region,
                answers,
                from,
            ),
            _ => Trip::fails(Fault::UnregisteredType { type_index: value.type_index }),
        }
    }
}

/// Walk of the elements of a sequence from `i` on.
pub open spec fn visit_cells<P, E>(
    walker: NativeWalker,
    cells: Seq<Value<E>>,
    i: nat,
    region: DefRegionKind,
    answers: Seq<Answer<P, E>>,
    from: nat,
) -> Trip<P, E>
    decreases cells, 0nat, cells.len() - i,
{
    if i >= cells.len() {
        Trip::ends(Ok(()))
    } else {
        let item = visit(walker, cells[i as int], region, answers, from).at(
            Place::SequenceItem { index: i as usize },
        );
        item.followed_by(visit_cells(walker, cells, i + 1, region, answers, from + item.calls.len()))
    }
}

/// The first error that the iterator of a dict raises while all entries from `i`
/// on are read. It is not moved beyond the last entry.
pub open spec fn dict_error<E>(entries: Seq<Entry<E>>, i: nat) -> Option<E>
    decreases entries.len() - i,
{
    if i >= entries.len() {
        None
    } else {
        let entry = entries[i as int];
        match entry.key {
            Err(error) => Some(error),
            Ok(_) => match entry.value {
                Err(error) => Some(error),
                Ok(_) => if i + 1 == entries.len() {
                    None
                } else {
                    match entry.next {
                        Err(error) => Some(error),
                        Ok(()) => dict_error(entries, i + 1),
                    }
                },
            },
        }
    }
}

/// Walk of the entries of a dict from `i` on, where all of them could be read.
pub open spec fn visit_dict<P, E>(
    walker: NativeWalker,
    entries: Seq<Entry<E>>,
    i: nat,
    region: DefRegionKind,
    answers: Seq<Answer<P, E>>,
    from: nat,
) -> Trip<P, E>
    decreases entries, 0nat, entries.len() - i,
{
    if i >= entries.len() {
        Trip::ends(Ok(()))
    } else {
        match (entries[i as int].key, entries[i as int].value) {
            (Ok(key), Ok(value)) => {
                let index = i as usize;
                let first = visit(walker, key, region, answers, from).at(Place::DictKey { index });
                let pair = first.followed_by(
                    visit(walker, value, region, answers, from + first.calls.len()).at(
                        Place::DictValue { index },
                    ),
                );
                pair.followed_by(
                    visit_dict(walker, entries, i + 1, region, answers, from + pair.calls.len()),
                )
            },
            _ => Trip::ends(Ok(())),
        }
    }
}

/// Walk of the entries of a map from `i` on. Each entry is read right before it
/// is visited.
pub open spec fn visit_map<P, E>(
    walker: NativeWalker,
    entries: Seq<Entry<E>>,
    i: nat,
    region: DefRegionKind,
    answers: Seq<Answer<P, E>>,
    from: nat,
) -> Trip<P, E>
    decreases entries, 0nat, entries.len() - i,
{
    if i >= entries.len() {
        Trip::ends(Ok(()))
    } else {
        match (entries[i as int].key, entries[i as int].value) {
            (Err(error), _) => Trip::raises(error),
            (Ok(_), Err(error)) => Trip::raises(error),
            (Ok(key), Ok(value)) => {
                let index = i as usize;
                let first = visit(walker, key, region, answers, from).at(Place::MapKey { index });
                let pair = first.followed_by(
                    visit(walker, value, region, answers, from + first.calls.len()).at(
                        Place::MapValue { index },
                    ),
                );
                pair.followed_by(
                    if i + 1 == entries.len() {
                        Trip::ends(Ok(()))
                    } else {
                        match entries[i as int].next {
                            Err(error) => Trip::raises(error),
                            Ok(()) => visit_map(
                                walker,
                                entries,
                                i + 1,
                                region,
                                answers,
                                from + pair.calls.len(),
                            ),
                        }
                    },
                )
            },
        }
    }
}

/// Walk of the reflected fields of an object from `i` on.
pub open spec fn visit_fields<P, E>(
    walker: NativeWalker,
    fields: Seq<Field<E>>,
    i: nat,
    region: DefRegionKind,
    answers: Seq<Answer<P, E>>,
    from: nat,
) -> Trip<P, E>
    decreases fields, 0nat, fields.len() - i,
{
    if i >= fields.len() {
        Trip::ends(Ok(()))
    } else {
        let item = visit_field(walker, fields[i as int], region, answers, from);
        item.followed_by(visit_fields(walker, fields, i + 1, region, answers, from + item.calls.len()))
    }
}

/// Walk of one reflected field of an object that is visited in `region`.
pub open spec fn visit_field<P, E>(
    walker: NativeWalker,
    field: Field<E>,
    region: DefRegionKind,
    answers: Seq<Answer<P, E>>,
    from: nat,
) -> Trip<P, E>
    decreases field, 0nat, 0nat,
{
    let place = Place::Field { name: field.name };
    if kind::has_flag(field.flags, FLAG_SEQ_HASH_IGNORE) {
        Trip::ends(Ok(()))
    } else {
        match field.getter {
            None => Trip::fails(Fault::MissingGetter { field: field.name }),
            Some(Err(error)) => Trip::raises(error).at(place),
            Some(Ok(child)) => visit(
                walker,
                child,
                kind::region_of_field(field.flags, region),
                answers,
                from,
            ).at(place),
        }
    }
}

} // verus!
