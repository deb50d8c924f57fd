//! Types with a visit hook of their own.
use vstd::prelude::*;

use crate::error::{Error, Fault, Place};
use crate::kind;
use crate::kind::{DefRegionKind, Phase, WalkOrder};
use crate::laws::composition;
use crate::laws::plan;
use crate::outcome::{NativeHalt, NativeResult, WalkResult};
use crate::semantics;
use crate::semantics::{Call, Trip};
use crate::step;
use crate::step::{Answer, NativeWalker};
use crate::tree::{Content, Entry, Field, Value};
use crate::visit;
use crate::visit::{DispatchVisitor, Turn, VisitDispatch};

verus! {

/// Whether the walker looks at the value's hook, and finds one.
pub open spec fn hooked<E>(walker: NativeWalker, value: Value<E>) -> bool {
    &&& walker.structural_visit
    &&& value.type_index != 0
    &&& !(value.type_index == 71 || value.type_index == 75)
    &&& !(value.type_index == 72 || value.type_index == 76)
    &&& value.hook is Some
    &&& value.hook != Some(0i32)
}

/// What is wrong with a walk that would have to go below a value with a hook: the hook
/// is a function of foreign code, or no function at all.
pub open spec fn hook_error<E>(value: Value<E>) -> Fault {
    if value.hook == Some(4i32) || value.hook == Some(68i32) {
        Fault::ForeignHook { type_index: value.type_index }
    } else {
        Fault::InvalidHook
    }
}

/// The halt of a walk that would have to go below a value with a hook.
pub open spec fn refusal<P, E>(value: Value<E>) -> NativeHalt<P, E> {
    plan::passed(NativeHalt::Error(Error::Native(hook_error(value))), value.type_index)
}

/// A walk that advances into a value with a hook is refused before anything below
/// the value is visited: the hook might visit other children than reflection tells.
pub proof fn law_hook_is_refused<P, E>(
    walker: NativeWalker,
    value: Value<E>,
    region: DefRegionKind,
    answers: Seq<Answer<P, E>>,
    from: nat,
)
    requires
        hooked(walker, value),
        answers[from as int] == (Answer::<P, E> { result: Ok(WalkResult::Advance), halted: None }),
    ensures
        semantics::visit(walker, value, region, answers, from) == (Trip::<P, E> {
            calls: seq![Call { phase: Phase::Enter, value, region }],
            result: Err(refusal(value)),
        }),
{
    let trip = semantics::visit::<P, E>(walker, value, region, answers, from);
    assert(trip.calls =~= seq![Call { phase: Phase::Enter, value, region }]);
}

/// Whether a trip ends where a callback advances into a value with a hook, with that
/// hook's fault as the origin of its error, and runs no exit callback on such a value.
pub open spec fn refused<P, E>(
    walker: NativeWalker,
    trip: Trip<P, E>,
    answers: Seq<Answer<P, E>>,
    from: nat,
) -> bool {
    forall|i: int|
        0 <= i < trip.calls.len() && hooked(walker, (#[trigger] trip.calls[i]).value) ==> {
            &&& trip.calls[i].phase == Phase::Enter
            &&& composition::advances(answers[from + i])
                ==> i == trip.calls.len() - 1 && faulted(trip, trip.calls[i].value)
        }
}

/// Whether a trip ends with an error that comes from the hook of `value`.
pub open spec fn faulted<P, E>(trip: Trip<P, E>, value: Value<E>) -> bool {
    trip.result matches Err(NativeHalt::Error(error)) && error.origin() == Error::<E>::Native(
        hook_error(value),
    )
}

proof fn lemma_refused_at<P, E>(
    walker: NativeWalker,
    trip: Trip<P, E>,
    answers: Seq<Answer<P, E>>,
    from: nat,
    place: Place,
)
    requires
        refused(walker, trip, answers, from),
    ensures
        refused(walker, trip.at(place), answers, from),
{
    let moved = trip.at(place);
    assert forall|i: int|
        0 <= i < moved.calls.len() && hooked(walker, (#[trigger] moved.calls[i]).value) implies {
        &&& moved.calls[i].phase == Phase::Enter
        &&& composition::advances(answers[from + i])
            ==> i == moved.calls.len() - 1 && faulted(moved, moved.calls[i].value)
    } by {
        assert(moved.calls[i] == trip.calls[i]);
        if let Err(NativeHalt::Error(error)) = trip.result {
            let outer = Error::Within { place, source: Box::new(error) };
            assert(outer.origin() == error.origin());
        }
    }
}

proof fn lemma_refused_followed_by<P, E>(
    walker: NativeWalker,
    trip: Trip<P, E>,
    rest: Trip<P, E>,
    answers: Seq<Answer<P, E>>,
    from: nat,
)
    requires
        refused(walker, trip, answers, from),
        trip.result is Ok ==> refused(walker, rest, answers, from + trip.calls.len()),
    ensures
        refused(walker, trip.followed_by(rest), answers, from),
{
    let both = trip.followed_by(rest);
    let n = trip.calls.len();
    if trip.result is Ok {
        assert forall|i: int|
            0 <= i < both.calls.len() && hooked(walker, (#[trigger] both.calls[i]).value) implies {
            &&& both.calls[i].phase == Phase::Enter
            &&& composition::advances(answers[from + i])
                ==> i == both.calls.len() - 1 && faulted(both, both.calls[i].value)
        } by {
            if i < n {
                assert(both.calls[i] == trip.calls[i]);
            } else {
                assert(both.calls[i] == rest.calls[i - n]);
            }
        }
    }
}

proof fn lemma_refused_visit<P, E>(
    walker: NativeWalker,
    value: Value<E>,
    region: DefRegionKind,
    answers: Seq<Answer<P, E>>,
    from: nat,
)
    ensures
        refused(
            walker,
            semantics::visit(walker, value, region, answers, from),
            answers,
            from,
        ),
    decreases value, 1nat, 0nat,
{
    let trip = semantics::visit::<P, E>(walker, value, region, answers, from);
    if value.type_index != 0 && step::verdict(answers[from as int], value.type_index)
        == Ok::<bool, NativeHalt<P, E>>(true) {
        let below = semantics::children::<P, E>(walker, value, region, answers, from + 1);
        lemma_refused_children(walker, value, region, answers, from + 1);
        if let Err(NativeHalt::Error(error)) = below.result {
            let outer = Error::Within {
                place: Place::Object { type_index: value.type_index },
                source: Box::new(error),
            };
            assert(outer.origin() == error.origin());
        }
        assert forall|i: int|
            0 <= i < trip.calls.len() && hooked(walker, (#[trigger] trip.calls[i]).value) implies {
            &&& trip.calls[i].phase == Phase::Enter
            &&& composition::advances(answers[from + i])
                ==> i == trip.calls.len() - 1 && faulted(trip, trip.calls[i].value)
        } by {
            if 1 <= i <= below.calls.len() {
                assert(trip.calls[i] == below.calls[i - 1]);
            }
        }
    }
}

proof fn lemma_refused_children<P, E>(
    walker: NativeWalker,
    value: Value<E>,
    region: DefRegionKind,
    answers: Seq<Answer<P, E>>,
    from: nat,
)
    ensures
        refused(
            walker,
            semantics::children(walker, value, region, answers, from),
            answers,
            from,
        ),
    decreases value, 0nat, 0nat,
{
    if value.type_index == 71 || value.type_index == 75 {
        if let Content::Sequence { cells: Some(cells), .. } = value.content {
            lemma_refused_cells(walker, cells@, 0, region, answers, from);
        }
    } else if value.type_index == 72 || value.type_index == 76 {
        if let Content::Mapping { entries, .. } = value.content {
            if value.type_index == 76 {
                lemma_refused_dict(walker, entries@, 0, region, answers, from);
            } else {
                lemma_refused_map(walker, entries@, 0, region, answers, from);
            }
        }
    } else if value.type_index >= 64 {
        if let Content::Object { fields: Some(fields) } = value.content {
            lemma_refused_fields(walker, fields@, 0, region, answers, from);
        }
    }
}

proof fn lemma_refused_cells<P, E>(
    walker: NativeWalker,
    cells: Seq<Value<E>>,
    i: nat,
    region: DefRegionKind,
    answers: Seq<Answer<P, E>>,
    from: nat,
)
    ensures
        refused(
            walker,
            semantics::visit_cells(walker, cells, i, region, answers, from),
            answers,
            from,
        ),
    decreases cells, 0nat, cells.len() - i,
{
    if i < cells.len() {
        let place = Place::SequenceItem { index: i as usize };
        let item = semantics::visit::<P, E>(walker, cells[i as int], region, answers, from);
        let next = from + item.calls.len();
        lemma_refused_visit(walker, cells[i as int], region, answers, from);
        lemma_refused_at(walker, item, answers, from, place);
        lemma_refused_cells(walker, cells, i + 1, region, answers, next);
        lemma_refused_followed_by(
            walker,
            item.at(place),
            semantics::visit_cells(walker, cells, i + 1, region, answers, next),
            answers,
            from,
        );
    }
}

proof fn lemma_refused_dict<P, E>(
    walker: NativeWalker,
    entries: Seq<Entry<E>>,
    i: nat,
    region: DefRegionKind,
    answers: Seq<Answer<P, E>>,
    from: nat,
)
    ensures
        refused(
            walker,
            semantics::visit_dict(walker, entries, i, region, answers, from),
            answers,
            from,
        ),
    decreases entries, 0nat, entries.len() - i,
{
    if i < entries.len() {
        let entry = entries[i as int];
        if entry.key is Ok && entry.value is Ok {
            let (key, value) = (entry.key->Ok_0, entry.value->Ok_0);
            let at_key = Place::DictKey { index: i as usize };
            let at_value = Place::DictValue { index: i as usize };
            let first = semantics::visit::<P, E>(walker, key, region, answers, from);
            let next = from + first.calls.len();
            let second = semantics::visit::<P, E>(walker, value, region, answers, next);
            let pair = first.at(at_key).followed_by(second.at(at_value));
            let after = from + pair.calls.len();
            let rest = semantics::visit_dict::<P, E>(
                walker,
                entries,
                i + 1,
                region,
                answers,
                after,
            );
            lemma_refused_visit(walker, key, region, answers, from);
            lemma_refused_at(walker, first, answers, from, at_key);
            lemma_refused_visit(walker, value, region, answers, next);
            lemma_refused_at(walker, second, answers, next, at_value);
            lemma_refused_followed_by(
                walker,
                first.at(at_key),
                second.at(at_value),
                answers,
                from,
            );
            lemma_refused_dict(walker, entries, i + 1, region, answers, after);
            lemma_refused_followed_by(walker, pair, rest, answers, from);
        }
    }
}

proof fn lemma_refused_map<P, E>(
    walker: NativeWalker,
    entries: Seq<Entry<E>>,
    i: nat,
    region: DefRegionKind,
    answers: Seq<Answer<P, E>>,
    from: nat,
)
    ensures
        refused(
            walker,
            semantics::visit_map(walker, entries, i, region, answers, from),
            answers,
            from,
        ),
    decreases entries, 0nat, entries.len() - i,
{
    if i < entries.len() {
        let entry = entries[i as int];
        if entry.key is Ok && entry.value is Ok {
            let (key, value) = (entry.key->Ok_0, entry.value->Ok_0);
            let at_key = Place::MapKey { index: i as usize };
            let at_value = Place::MapValue { index: i as usize };
            let first = semantics::visit::<P, E>(walker, key, region, answers, from);
            let next = from + first.calls.len();
            let second = semantics::visit::<P, E>(walker, value, region, answers, next);
            let pair = first.at(at_key).followed_by(second.at(at_value));
            let after = from + pair.calls.len();
            let rest = if i + 1 == entries.len() {
                Trip::ends(Ok(()))
            } else if entry.next is Err {
                Trip::raises(entry.next->Err_0)
            } else {
                semantics::visit_map::<P, E>(walker, entries, i + 1, region, answers, after)
            };
            lemma_refused_visit(walker, key, region, answers, from);
            lemma_refused_at(walker, first, answers, from, at_key);
            lemma_refused_visit(walker, value, region, answers, next);
            lemma_refused_at(walker, second, answers, next, at_value);
            lemma_refused_followed_by(
                walker,
                first.at(at_key),
                second.at(at_value),
                answers,
                from,
            );
            lemma_refused_map(walker, entries, i + 1, region, answers, after);
            lemma_refused_followed_by(walker, pair, rest, answers, from);
        }
    }
}

proof fn lemma_refused_fields<P, E>(
    walker: NativeWalker,
    fields: Seq<Field<E>>,
    i: nat,
    region: DefRegionKind,
    answers: Seq<Answer<P, E>>,
    from: nat,
)
    ensures
        refused(
            walker,
            semantics::visit_fields(walker, fields, i, region, answers, from),
            answers,
            from,
        ),
    decreases fields, 0nat, fields.len() - i,
{
    if i < fields.len() {
        let field = fields[i as int];
        let trip = semantics::visit_field::<P, E>(walker, field, region, answers, from);
        let next = from + trip.calls.len();
        if let Some(Ok(child)) = field.getter {
            let inner = kind::region_of_field(field.flags, region);
            lemma_refused_visit(walker, child, inner, answers, from);
            lemma_refused_at(
                walker,
                semantics::visit(walker, child, inner, answers, from),
                answers,
                from,
                Place::Field { name: field.name },
            );
        }
        assert(refused(walker, trip, answers, from));
        lemma_refused_fields(walker, fields, i + 1, region, answers, next);
        lemma_refused_followed_by(
            walker,
            trip,
            semantics::visit_fields(walker, fields, i + 1, region, answers, next),
            answers,
            from,
        );
    }
}

/// A walk that advances into a value with a hook, however deep, ends there: no callback
/// runs any more, and the walk's error comes from that hook. No exit callback ever runs
/// on such a value.
pub proof fn law_hook_ends_the_walk<P, E>(
    walker: NativeWalker,
    value: Value<E>,
    region: DefRegionKind,
    answers: Seq<Answer<P, E>>,
)
    ensures
        refused(walker, semantics::visit(walker, value, region, answers, 0), answers, 0),
{
    lemma_refused_visit(walker, value, region, answers, 0);
}

/// Handlers that run behind the children cannot take over a value with a hook: a walk
/// that reaches one, however deep, ends there with an error that comes from the hook,
/// and no handler ever runs on such a value.
pub proof fn law_hook_needs_pre_order<'a, V: VisitDispatch<'a, P, E>, P, E>(
    walker: NativeWalker,
    value: Value<E>,
    region: DefRegionKind,
    before: V,
    turns: Seq<Turn<V, P, E>>,
    after: V,
    result: NativeResult<P, E>,
    i: int,
)
    requires
        visit::walked(
            DispatchVisitor { order: WalkOrder::PostOrder },
            walker,
            value,
            region,
            before,
            turns,
            after,
            result,
        ),
        0 <= i < turns.len(),
        hooked(
            walker,
            semantics::visit(walker, value, region, visit::answers_of(turns), 0).calls[i].value,
        ),
    ensures
        ({
            let trip = semantics::visit(walker, value, region, visit::answers_of(turns), 0);
            &&& i == turns.len() - 1
            &&& faulted(trip, trip.calls[i].value)
            &&& result == trip.result
            &&& !(DispatchVisitor { order: WalkOrder::PostOrder }).handles(trip.calls[i].phase)
            &&& turns[i].after == turns[i].before
        }),
{
    let answers = visit::answers_of(turns);
    let trip = semantics::visit::<P, E>(walker, value, region, answers, 0);
    law_hook_ends_the_walk(walker, value, region, answers);
    assert(trip.calls[i].phase == Phase::Enter);
    assert(turns[i].answers_call(
        DispatchVisitor { order: WalkOrder::PostOrder },
        walker,
        trip.calls[i],
    ));
    assert(answers[i] == turns[i].answer());
    assert(composition::advances(answers[0 + i]));
}

/// A walk with handlers that run behind the children is refused where it starts at a
/// value with a hook, and no handler has run at all.
pub proof fn law_hooked_root_runs_no_handler<'a, V: VisitDispatch<'a, P, E>, P, E>(
    walker: NativeWalker,
    value: Value<E>,
    region: DefRegionKind,
    before: V,
    turns: Seq<Turn<V, P, E>>,
    after: V,
    result: NativeResult<P, E>,
)
    requires
        hooked(walker, value),
        visit::walked(
            DispatchVisitor { order: WalkOrder::PostOrder },
            walker,
            value,
            region,
            before,
            turns,
            after,
            result,
        ),
    ensures
        result == NativeResult::<P, E>::Err(refusal(value)),
        after == before,
{
    let answers = visit::answers_of(turns);
    let trip = semantics::visit::<P, E>(walker, value, region, answers, 0);
    assert(trip.calls[0].phase == Phase::Enter);
    assert(turns[0].answers_call(
        DispatchVisitor { order: WalkOrder::PostOrder },
        walker,
        trip.calls[0],
    ));
    assert(answers[0] == turns[0].answer());
    assert(answers[0] == (Answer::<P, E> { result: Ok(WalkResult::Advance), halted: None }));
    law_hook_is_refused(walker, value, region, answers, 0);
}

/// The children of a container are the same whatever hook its type registers.
pub proof fn law_containers_need_no_hook<P, E>(
    walker: NativeWalker,
    value: Value<E>,
    hook: Option<i32>,
    region: DefRegionKind,
    answers: Seq<Answer<P, E>>,
    from: nat,
)
    requires
        (value.type_index == 71 || value.type_index == 75) || (value.type_index == 72 || value.type_index == 76),
    ensures
        semantics::children(walker, value, region, answers, from) == semantics::children(
            walker,
            Value { hook, ..value },
            region,
            answers,
            from,
        ),
{
}

} // verus!
