//! What of its callbacks' answers a walk depends on.
use vstd::prelude::*;

use crate::error::Place;
use crate::kind;
use crate::kind::{DefRegionKind, Phase};
use crate::outcome::{NativeHalt, WalkResult};
use crate::semantics;
use crate::semantics::{Call, Trip};
use crate::step;
use crate::step::{Answer, NativeWalker};
use crate::tree::{Content, Entry, Field, Value};

verus! {

/// Whether two answers mean the same to the walk where `call` is answered. On exit
/// there is nothing left to skip.
pub open spec fn alike<P, E>(call: Call<E>, one: Answer<P, E>, other: Answer<P, E>) -> bool {
    let first = step::verdict(one, call.value.type_index);
    let second = step::verdict(other, call.value.type_index);
    first == second || call.phase == Phase::Exit && first is Ok && second is Ok
}

/// Whether the answers that two trips' callbacks gave mean the same, as far as both
/// trips go: the first trip's callbacks get `answers` from `from` on, the other's
/// `others` from `at` on.
pub open spec fn agree<P, E>(
    trip: Trip<P, E>,
    answers: Seq<Answer<P, E>>,
    from: nat,
    other: Trip<P, E>,
    others: Seq<Answer<P, E>>,
    at: nat,
) -> bool {
    forall|i: int|
        0 <= i < trip.calls.len() && i < other.calls.len() ==> alike(
            #[trigger] trip.calls[i],
            answers[from + i],
            others[at + i],
        )
}

proof fn lemma_agree_first<P, E>(
    trip: Trip<P, E>,
    rest: Trip<P, E>,
    answers: Seq<Answer<P, E>>,
    from: nat,
    other: Trip<P, E>,
    other_rest: Trip<P, E>,
    others: Seq<Answer<P, E>>,
    at: nat,
)
    requires
        agree(
            trip.followed_by(rest),
            answers,
            from,
            other.followed_by(other_rest),
            others,
            at,
        ),
    ensures
        agree(trip, answers, from, other, others, at),
        trip == other && trip.result is Ok ==> agree(
            rest,
            answers,
            from + trip.calls.len(),
            other_rest,
            others,
            at + trip.calls.len(),
        ),
{
    let both = trip.followed_by(rest);
    assert forall|i: int| 0 <= i < trip.calls.len() && i < other.calls.len() implies alike(
        #[trigger] trip.calls[i],
        answers[from + i],
        others[at + i],
    ) by {
        assert(both.calls[i] == trip.calls[i]);
    }
    if trip == other && trip.result is Ok {
        let n = trip.calls.len();
        assert forall|i: int|
            0 <= i < rest.calls.len() && i < other_rest.calls.len() implies alike(
            #[trigger] rest.calls[i],
            answers[from + n + i],
            others[at + n + i],
        ) by {
            assert(both.calls[n + i] == rest.calls[i]);
        }
    }
}

proof fn lemma_agree_visit<P, E>(
    walker: NativeWalker,
    value: Value<E>,
    region: DefRegionKind,
    answers: Seq<Answer<P, E>>,
    from: nat,
    others: Seq<Answer<P, E>>,
    at: nat,
)
    requires
        agree(
            semantics::visit(walker, value, region, answers, from),
            answers,
            from,
            semantics::visit(walker, value, region, others, at),
            others,
            at,
        ),
    ensures
        semantics::visit(walker, value, region, others, at) == semantics::visit(
            walker,
            value,
            region,
            answers,
            from,
        ),
    decreases value, 1nat, 0nat,
{
    if value.type_index != 0 {
        let trip = semantics::visit::<P, E>(walker, value, region, answers, from);
        let other = semantics::visit::<P, E>(walker, value, region, others, at);
        assert(alike(trip.calls[0], answers[from as int], others[at as int]));
        if step::verdict(answers[from as int], value.type_index) == Ok::<
            bool,
            NativeHalt<P, E>,
        >(true) {
            let below = semantics::children::<P, E>(walker, value, region, answers, from + 1);
            let other_below = semantics::children::<P, E>(walker, value, region, others, at + 1);
            assert forall|i: int|
                0 <= i < below.calls.len() && i < other_below.calls.len() implies alike(
                #[trigger] below.calls[i],
                answers[from + 1 + i],
                others[at + 1 + i],
            ) by {
                assert(trip.calls[i + 1] == below.calls[i]);
            }
            lemma_agree_children(walker, value, region, answers, from + 1, others, at + 1);
            if below.result is Ok {
                let last = below.calls.len() + 1;
                assert(trip.calls[last as int].phase == Phase::Exit);
            }
        }
    }
}

proof fn lemma_agree_children<P, E>(
    walker: NativeWalker,
    value: Value<E>,
    region: DefRegionKind,
    answers: Seq<Answer<P, E>>,
    from: nat,
    others: Seq<Answer<P, E>>,
    at: nat,
)
    requires
        agree(
            semantics::children(walker, value, region, answers, from),
            answers,
            from,
            semantics::children(walker, value, region, others, at),
            others,
            at,
        ),
    ensures
        semantics::children(walker, value, region, others, at) == semantics::children(
            walker,
            value,
            region,
            answers,
            from,
        ),
    decreases value, 0nat, 0nat,
{
    if value.type_index == 71 || value.type_index == 75 {
        let (size, null) = value.header();
        if step::sequence_fault(size, null) is None {
            if let Content::Sequence { cells: Some(cells), .. } = value.content {
                lemma_agree_cells(walker, cells@, 0, region, answers, from, others, at);
            }
        }
    } else if value.type_index == 72 || value.type_index == 76 {
        if let Content::Mapping { size: Ok(size), iter: Ok(()), entries } = value.content {
            if step::map_fault(size) is None && size != 0 {
                if value.type_index == 76 {
                    if semantics::dict_error(entries@, 0) is None {
                        lemma_agree_dict(walker, entries@, 0, region, answers, from, others, at);
                    }
                } else {
                    lemma_agree_map(walker, entries@, 0, region, answers, from, others, at);
                }
            }
        }
    } else if walker.structural_visit && step::hook_fault(value.type_index, value.hook) is Some {
    } else if value.type_index >= 64 {
        if let Content::Object { fields: Some(fields) } = value.content {
            lemma_agree_fields(walker, fields@, 0, region, answers, from, others, at);
        }
    }
}

proof fn lemma_agree_cells<P, E>(
    walker: NativeWalker,
    cells: Seq<Value<E>>,
    i: nat,
    region: DefRegionKind,
    answers: Seq<Answer<P, E>>,
    from: nat,
    others: Seq<Answer<P, E>>,
    at: nat,
)
    requires
        agree(
            semantics::visit_cells(walker, cells, i, region, answers, from),
            answers,
            from,
            semantics::visit_cells(walker, cells, i, region, others, at),
            others,
            at,
        ),
    ensures
        semantics::visit_cells(walker, cells, i, region, others, at) == semantics::visit_cells(
            walker,
            cells,
            i,
            region,
            answers,
            from,
        ),
    decreases cells, 0nat, cells.len() - i,
{
    if i < cells.len() {
        let cell = cells[i as int];
        let place = Place::SequenceItem { index: i as usize };
        let item = semantics::visit::<P, E>(walker, cell, region, answers, from).at(place);
        let other = semantics::visit::<P, E>(walker, cell, region, others, at).at(place);
        let (next, other_next) = (from + item.calls.len(), at + other.calls.len());
        lemma_agree_first(
            item,
            semantics::visit_cells(walker, cells, i + 1, region, answers, next),
            answers,
            from,
            other,
            semantics::visit_cells(walker, cells, i + 1, region, others, other_next),
            others,
            at,
        );
        lemma_agree_visit(walker, cell, region, answers, from, others, at);
        if item.result is Ok {
            lemma_agree_cells(walker, cells, i + 1, region, answers, next, others, other_next);
        }
    }
}

proof fn lemma_agree_dict<P, E>(
    walker: NativeWalker,
    entries: Seq<Entry<E>>,
    i: nat,
    region: DefRegionKind,
    answers: Seq<Answer<P, E>>,
    from: nat,
    others: Seq<Answer<P, E>>,
    at: nat,
)
    requires
        agree(
            semantics::visit_dict(walker, entries, i, region, answers, from),
            answers,
            from,
            semantics::visit_dict(walker, entries, i, region, others, at),
            others,
            at,
        ),
    ensures
        semantics::visit_dict(walker, entries, i, region, others, at) == semantics::visit_dict(
            walker,
            entries,
            i,
            region,
            answers,
            from,
        ),
    decreases entries, 0nat, entries.len() - i,
{
    if i < entries.len() {
        let entry = entries[i as int];
        if entry.key is Ok && entry.value is Ok {
            let (key, value) = (entry.key->Ok_0, entry.value->Ok_0);
            let at_key = Place::DictKey { index: i as usize };
            let at_value = Place::DictValue { index: i as usize };
            let first = semantics::visit::<P, E>(walker, key, region, answers, from).at(at_key);
            let other_first = semantics::visit::<P, E>(walker, key, region, others, at).at(at_key);
            let (next, other_next) = (from + first.calls.len(), at + other_first.calls.len());
            let second = semantics::visit::<P, E>(walker, value, region, answers, next).at(
                at_value,
            );
            let other_second = semantics::visit::<P, E>(
                walker,
                value,
                region,
                others,
                other_next,
            ).at(at_value);
            let pair = first.followed_by(second);
            let other_pair = other_first.followed_by(other_second);
            let (after, other_after) = (from + pair.calls.len(), at + other_pair.calls.len());
            let rest = semantics::visit_dict::<P, E>(
                walker,
                entries,
                i + 1,
                region,
                answers,
                after,
            );
            let other_rest = semantics::visit_dict::<P, E>(
                walker,
                entries,
                i + 1,
                region,
                others,
                other_after,
            );
            lemma_agree_first(pair, rest, answers, from, other_pair, other_rest, others, at);
            lemma_agree_first(first, second, answers, from, other_first, other_second, others, at);
            lemma_agree_visit(walker, key, region, answers, from, others, at);
            if first.result is Ok {
                lemma_agree_visit(walker, value, region, answers, next, others, other_next);
            }
            if pair.result is Ok {
                lemma_agree_dict(
                    walker,
                    entries,
                    i + 1,
                    region,
                    answers,
                    after,
                    others,
                    other_after,
                );
            }
        }
    }
}

proof fn lemma_agree_map<P, E>(
    walker: NativeWalker,
    entries: Seq<Entry<E>>,
    i: nat,
    region: DefRegionKind,
    answers: Seq<Answer<P, E>>,
    from: nat,
    others: Seq<Answer<P, E>>,
    at: nat,
)
    requires
        agree(
            semantics::visit_map(walker, entries, i, region, answers, from),
            answers,
            from,
            semantics::visit_map(walker, entries, i, region, others, at),
            others,
            at,
        ),
    ensures
        semantics::visit_map(walker, entries, i, region, others, at) == semantics::visit_map(
            walker,
            entries,
            i,
            region,
            answers,
            from,
        ),
    decreases entries, 0nat, entries.len() - i,
{
    if i < entries.len() {
        let entry = entries[i as int];
        if entry.key is Ok && entry.value is Ok {
            let (key, value) = (entry.key->Ok_0, entry.value->Ok_0);
            let at_key = Place::MapKey { index: i as usize };
            let at_value = Place::MapValue { index: i as usize };
            let first = semantics::visit::<P, E>(walker, key, region, answers, from).at(at_key);
            let other_first = semantics::visit::<P, E>(walker, key, region, others, at).at(at_key);
            let (next, other_next) = (from + first.calls.len(), at + other_first.calls.len());
            let second = semantics::visit::<P, E>(walker, value, region, answers, next).at(
                at_value,
            );
            let other_second = semantics::visit::<P, E>(
                walker,
                value,
                region,
                others,
                other_next,
            ).at(at_value);
            let pair = first.followed_by(second);
            let other_pair = other_first.followed_by(other_second);
            let (after, other_after) = (from + pair.calls.len(), at + other_pair.calls.len());
            let moves = i + 1 < entries.len() && entry.next is Ok;
            let ending = if i + 1 < entries.len() {
                Trip::raises(entry.next->Err_0)
            } else {
                Trip::ends(Ok(()))
            };
            let rest = if moves {
                semantics::visit_map::<P, E>(walker, entries, i + 1, region, answers, after)
            } else {
                ending
            };
            let other_rest = if moves {
                semantics::visit_map::<P, E>(walker, entries, i + 1, region, others, other_after)
            } else {
                ending
            };
            lemma_agree_first(pair, rest, answers, from, other_pair, other_rest, others, at);
            lemma_agree_first(first, second, answers, from, other_first, other_second, others, at);
            lemma_agree_visit(walker, key, region, answers, from, others, at);
            if first.result is Ok {
                lemma_agree_visit(walker, value, region, answers, next, others, other_next);
            }
            if pair.result is Ok && moves {
                lemma_agree_map(
                    walker,
                    entries,
                    i + 1,
                    region,
                    answers,
                    after,
                    others,
                    other_after,
                );
            }
        }
    }
}

proof fn lemma_agree_fields<P, E>(
    walker: NativeWalker,
    fields: Seq<Field<E>>,
    i: nat,
    region: DefRegionKind,
    answers: Seq<Answer<P, E>>,
    from: nat,
    others: Seq<Answer<P, E>>,
    at: nat,
)
    requires
        agree(
            semantics::visit_fields(walker, fields, i, region, answers, from),
            answers,
            from,
            semantics::visit_fields(walker, fields, i, region, others, at),
            others,
            at,
        ),
    ensures
        semantics::visit_fields(walker, fields, i, region, others, at) == semantics::visit_fields(
            walker,
            fields,
            i,
            region,
            answers,
            from,
        ),
    decreases fields, 0nat, fields.len() - i,
{
    if i < fields.len() {
        let field = fields[i as int];
        let trip = semantics::visit_field::<P, E>(walker, field, region, answers, from);
        let other = semantics::visit_field::<P, E>(walker, field, region, others, at);
        let (next, other_next) = (from + trip.calls.len(), at + other.calls.len());
        lemma_agree_first(
            trip,
            semantics::visit_fields(walker, fields, i + 1, region, answers, next),
            answers,
            from,
            other,
            semantics::visit_fields(walker, fields, i + 1, region, others, other_next),
            others,
            at,
        );
        if field.flags & 8 == 0 {
            if let Some(Ok(child)) = field.getter {
                let inner = kind::region_of_field(field.flags, region);
                lemma_agree_visit(walker, child, inner, answers, from, others, at);
            }
        }
        assert(other == trip);
        if trip.result is Ok {
            lemma_agree_fields(walker, fields, i + 1, region, answers, next, others, other_next);
        }
    }
}

/// A walk depends on its callbacks only through what their answers mean: other
/// answers with the same meaning, wherever in a longer list they stand and whatever
/// would have been answered later, give the same callbacks and the same result. On
/// exit, `Skip` means what `Advance` means.
pub proof fn law_answers_decide<P, E>(
    walker: NativeWalker,
    value: Value<E>,
    region: DefRegionKind,
    answers: Seq<Answer<P, E>>,
    from: nat,
    others: Seq<Answer<P, E>>,
    at: nat,
)
    requires
        agree(
            semantics::visit(walker, value, region, answers, from),
            answers,
            from,
            semantics::visit(walker, value, region, others, at),
            others,
            at,
        ),
    ensures
        semantics::visit(walker, value, region, others, at) == semantics::visit(
            walker,
            value,
            region,
            answers,
            from,
        ),
{
    lemma_agree_visit(walker, value, region, answers, from, others, at);
}

/// An exit callback that answers `Skip` might as well have answered `Advance`.
pub proof fn law_exit_has_nothing_to_skip<P, E>(
    walker: NativeWalker,
    value: Value<E>,
    region: DefRegionKind,
    answers: Seq<Answer<P, E>>,
    i: int,
)
    requires
        0 <= i < semantics::visit(walker, value, region, answers, 0).calls.len() <= answers.len(),
        semantics::visit(walker, value, region, answers, 0).calls[i].phase == Phase::Exit,
        answers[i] == (Answer::<P, E> { result: Ok(WalkResult::Skip), halted: None }),
    ensures
        ({
            let advance = Answer::<P, E> { result: Ok(WalkResult::Advance), halted: None };
            semantics::visit(walker, value, region, answers.update(i, advance), 0)
                == semantics::visit(walker, value, region, answers, 0)
        }),
{
    let advance = Answer::<P, E> { result: Ok(WalkResult::Advance), halted: None };
    law_answers_decide(walker, value, region, answers, 0, answers.update(i, advance), 0);
}

} // verus!
