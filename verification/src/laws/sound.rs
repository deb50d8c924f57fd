//! Sound graphs are walked to the end.
use vstd::prelude::*;

use crate::error::Error;
use crate::kind::{DefRegionKind, Phase, WalkOrder};
use crate::laws::composition;
use crate::laws::coverage;
use crate::outcome::{NativeResult, VisitResult, WalkResult};
use crate::semantics;
use crate::semantics::Trip;
use crate::step::{Answer, NativeWalker};
use crate::tree::{Content, Entry, Field, Value};
use crate::visit;
use crate::visit::{DispatchVisitor, Turn, VisitDispatch};

verus! {

/// Whether nothing stands in the way of walking the value: sequences and maps report a
/// size that is not negative and fits a `usize`, and can be read to their end; no other
/// type has a hook; object types are registered; fields without bit 3 can be read; and so
/// on all the way down.
pub open spec fn sound<E>(value: Value<E>) -> bool
    decreases value,
{
    let index = value.type_index;
    if index == 71 || index == 75 {
        value.content matches Content::Sequence { length, cells } && 0 <= length <= usize::MAX
            && match cells {
            None => length == 0,
            Some(cells) => forall|i: int| 0 <= i < cells@.len() ==> sound(#[trigger] cells@[i]),
        }
    } else if index == 72 || index == 76 {
        value.content matches Content::Mapping { size: Ok(size), iter: Ok(()), entries } && 0
            <= size <= usize::MAX && forall|i: int|
            0 <= i < entries@.len() ==> sound_entry(
                #[trigger] entries@[i],
                i == entries@.len() - 1,
            )
    } else {
        &&& value.hook is None || value.hook == Some(0i32)
        &&& index >= 64 ==> (value.content matches Content::Object { fields: Some(fields) }
            && forall|i: int| 0 <= i < fields@.len() ==> sound_field(#[trigger] fields@[i]))
    }
}

pub open spec fn sound_entry<E>(entry: Entry<E>, last: bool) -> bool
    decreases entry,
{
    &&& entry.key matches Ok(key) && sound(key)
    &&& entry.value matches Ok(value) && sound(value)
    &&& last || entry.next is Ok
}

pub open spec fn sound_field<E>(field: Field<E>) -> bool
    decreases field,
{
    field.flags & 8 != 0 || (field.getter matches Some(Ok(value)) && sound(value))
}

/// Whether the answer halts nothing: to advance or to skip, after visits that went well.
pub open spec fn goes_on<P, E>(answer: Answer<P, E>) -> bool {
    &&& answer.halted is None
    &&& answer.result matches Ok(flow) && (flow is Advance || flow is Skip)
}

/// Whether no callback of the trip halts it.
pub open spec fn calm<P, E>(trip: Trip<P, E>, answers: Seq<Answer<P, E>>, from: nat) -> bool {
    forall|k: int| from <= k < from + trip.calls.len() ==> goes_on(#[trigger] answers[k])
}

proof fn lemma_sound_visit<P, E>(
    walker: NativeWalker,
    value: Value<E>,
    region: DefRegionKind,
    answers: Seq<Answer<P, E>>,
    from: nat,
)
    requires
        sound(value),
        calm(semantics::visit(walker, value, region, answers, from), answers, from),
    ensures
        semantics::visit(walker, value, region, answers, from).result is Ok,
    decreases value, 1nat, 0nat,
{
    if value.type_index != 0 {
        let trip = semantics::visit::<P, E>(walker, value, region, answers, from);
        assert(goes_on(answers[from as int]));
        if answers[from as int].result->Ok_0 is Advance {
            let below = semantics::children::<P, E>(walker, value, region, answers, from + 1);
            lemma_sound_children(walker, value, region, answers, from + 1);
            assert(goes_on(answers[from + 1 + below.calls.len() as int]));
        }
    }
}

proof fn lemma_sound_children<P, E>(
    walker: NativeWalker,
    value: Value<E>,
    region: DefRegionKind,
    answers: Seq<Answer<P, E>>,
    from: nat,
)
    requires
        sound(value),
        calm(semantics::children(walker, value, region, answers, from), answers, from),
    ensures
        semantics::children(walker, value, region, answers, from).result is Ok,
    decreases value, 0nat, 0nat,
{
    let index = value.type_index;
    if index == 71 || index == 75 {
        if let Content::Sequence { cells: Some(cells), .. } = value.content {
            lemma_sound_cells(walker, cells@, 0, region, answers, from);
        }
    } else if index == 72 || index == 76 {
        if let Content::Mapping { size: Ok(size), entries, .. } = value.content {
            if size > 0 {
                if index == 76 {
                    lemma_sound_dict_readable(entries@, 0);
                    lemma_sound_dict(walker, entries@, 0, region, answers, from);
                } else {
                    lemma_sound_map(walker, entries@, 0, region, answers, from);
                }
            }
        }
    } else if index >= 64 {
        if let Content::Object { fields: Some(fields) } = value.content {
            lemma_sound_fields(walker, fields@, 0, region, answers, from);
        }
    }
}

proof fn lemma_sound_cells<P, E>(
    walker: NativeWalker,
    cells: Seq<Value<E>>,
    i: nat,
    region: DefRegionKind,
    answers: Seq<Answer<P, E>>,
    from: nat,
)
    requires
        forall|j: int| 0 <= j < cells.len() ==> sound(#[trigger] cells[j]),
        calm(semantics::visit_cells(walker, cells, i, region, answers, from), answers, from),
    ensures
        semantics::visit_cells(walker, cells, i, region, answers, from).result is Ok,
    decreases cells, 0nat, cells.len() - i,
{
    if i < cells.len() {
        let first = semantics::visit::<P, E>(walker, cells[i as int], region, answers, from);
        lemma_sound_visit(walker, cells[i as int], region, answers, from);
        lemma_sound_cells(walker, cells, i + 1, region, answers, from + first.calls.len());
    }
}

proof fn lemma_sound_dict_readable<E>(entries: Seq<Entry<E>>, i: nat)
    requires
        forall|j: int|
            0 <= j < entries.len() ==> sound_entry(#[trigger] entries[j], j == entries.len() - 1),
    ensures
        semantics::dict_error(entries, i) is None,
    decreases entries.len() - i,
{
    if i < entries.len() {
        assert(sound_entry(entries[i as int], i == entries.len() - 1));
        lemma_sound_dict_readable(entries, i + 1);
    }
}

proof fn lemma_sound_dict<P, E>(
    walker: NativeWalker,
    entries: Seq<Entry<E>>,
    i: nat,
    region: DefRegionKind,
    answers: Seq<Answer<P, E>>,
    from: nat,
)
    requires
        forall|j: int|
            0 <= j < entries.len() ==> sound_entry(#[trigger] entries[j], j == entries.len() - 1),
        calm(semantics::visit_dict(walker, entries, i, region, answers, from), answers, from),
    ensures
        semantics::visit_dict(walker, entries, i, region, answers, from).result is Ok,
    decreases entries, 0nat, entries.len() - i,
{
    if i < entries.len() {
        let entry = entries[i as int];
        assert(sound_entry(entry, i == entries.len() - 1));
        let (key, value) = (entry.key->Ok_0, entry.value->Ok_0);
        let first = semantics::visit::<P, E>(walker, key, region, answers, from);
        let next = from + first.calls.len();
        let second = semantics::visit::<P, E>(walker, value, region, answers, next);
        lemma_sound_visit(walker, key, region, answers, from);
        lemma_sound_visit(walker, value, region, answers, next);
        lemma_sound_dict(walker, entries, i + 1, region, answers, next + second.calls.len());
    }
}

proof fn lemma_sound_map<P, E>(
    walker: NativeWalker,
    entries: Seq<Entry<E>>,
    i: nat,
    region: DefRegionKind,
    answers: Seq<Answer<P, E>>,
    from: nat,
)
    requires
        forall|j: int|
            0 <= j < entries.len() ==> sound_entry(#[trigger] entries[j], j == entries.len() - 1),
        calm(semantics::visit_map(walker, entries, i, region, answers, from), answers, from),
    ensures
        semantics::visit_map(walker, entries, i, region, answers, from).result is Ok,
    decreases entries, 0nat, entries.len() - i,
{
    if i < entries.len() {
        let entry = entries[i as int];
        assert(sound_entry(entry, i == entries.len() - 1));
        let (key, value) = (entry.key->Ok_0, entry.value->Ok_0);
        let first = semantics::visit::<P, E>(walker, key, region, answers, from);
        let next = from + first.calls.len();
        let second = semantics::visit::<P, E>(walker, value, region, answers, next);
        lemma_sound_visit(walker, key, region, answers, from);
        lemma_sound_visit(walker, value, region, answers, next);
        if i + 1 < entries.len() {
            lemma_sound_map(walker, entries, i + 1, region, answers, next + second.calls.len());
        }
    }
}

proof fn lemma_sound_fields<P, E>(
    walker: NativeWalker,
    fields: Seq<Field<E>>,
    i: nat,
    region: DefRegionKind,
    answers: Seq<Answer<P, E>>,
    from: nat,
)
    requires
        forall|j: int| 0 <= j < fields.len() ==> sound_field(#[trigger] fields[j]),
        calm(semantics::visit_fields(walker, fields, i, region, answers, from), answers, from),
    ensures
        semantics::visit_fields(walker, fields, i, region, answers, from).result is Ok,
    decreases fields, 0nat, fields.len() - i,
{
    if i < fields.len() {
        let field = fields[i as int];
        let trip = semantics::visit_field::<P, E>(walker, field, region, answers, from);
        if field.flags & 8 == 0 {
            let inner = composition::inner_region(field.flags, region);
            lemma_sound_visit(walker, field.getter->0->Ok_0, inner, answers, from);
        }
        assert(trip.result is Ok);
        lemma_sound_fields(walker, fields, i + 1, region, answers, from + trip.calls.len());
    }
}

/// A sound graph is walked to the end unless a callback halts the walk.
pub proof fn law_sound_graph_is_walked_to_the_end<P, E>(
    walker: NativeWalker,
    value: Value<E>,
    region: DefRegionKind,
    answers: Seq<Answer<P, E>>,
)
    requires
        sound(value),
        calm(semantics::visit(walker, value, region, answers, 0), answers, 0),
    ensures
        semantics::visit(walker, value, region, answers, 0).result is Ok,
{
    lemma_sound_visit(walker, value, region, answers, 0);
}

/// Callbacks that only advance run on every value of a sound graph: on enter in
/// pre-order, on exit in post-order, and the walk ends well.
pub proof fn law_sound_graph_is_visited_whole<P, E>(
    walker: NativeWalker,
    value: Value<E>,
    region: DefRegionKind,
    answers: Seq<Answer<P, E>>,
)
    requires
        value.wf(),
        sound(value),
        composition::steady(semantics::visit(walker, value, region, answers, 0), answers, 0),
    ensures
        ({
            let trip = semantics::visit(walker, value, region, answers, 0);
            &&& trip.result is Ok
            &&& coverage::seen(trip.calls, Phase::Enter) == coverage::ordered(
                value,
                region,
                WalkOrder::PreOrder,
            )
            &&& coverage::seen(trip.calls, Phase::Exit) == coverage::ordered(
                value,
                region,
                WalkOrder::PostOrder,
            )
        }),
{
    let trip = semantics::visit::<P, E>(walker, value, region, answers, 0);
    assert forall|k: int| 0 <= k < trip.calls.len() implies goes_on(#[trigger] answers[k]) by {
        assert(composition::advances(answers[k]));
    }
    lemma_sound_visit(walker, value, region, answers, 0);
    assert forall|i: int|
        0 <= i < trip.calls.len() && (#[trigger] trip.calls[i]).phase
            == Phase::Enter implies answers[0 + i].result != Ok::<WalkResult<P>, Error<E>>(
        WalkResult::Skip,
    ) by {
        assert(composition::advances(answers[i]));
    }
    coverage::law_whole_graph_is_visited(walker, value, region, answers, WalkOrder::PreOrder);
    coverage::law_whole_graph_is_visited(walker, value, region, answers, WalkOrder::PostOrder);
}

/// Typed handlers that only advance and make no visits of their own run on every value of
/// a sound graph, and the walk ends well: in pre-order before the children of each value,
/// in post-order behind them.
pub proof fn law_sound_graph_is_handled_whole<'a, V: VisitDispatch<'a, P, E>, P, E>(
    order: WalkOrder,
    walker: NativeWalker,
    value: Value<E>,
    region: DefRegionKind,
    before: V,
    turns: Seq<Turn<V, P, E>>,
    after: V,
    result: NativeResult<P, E>,
)
    requires
        value.wf(),
        sound(value),
        visit::walked(
            DispatchVisitor { order },
            walker,
            value,
            region,
            before,
            turns,
            after,
            result,
        ),
        forall|i: int|
            0 <= i < turns.len() ==> (#[trigger] turns[i]).result == VisitResult::<P, E>::Ok(
                WalkResult::Advance,
            ) && turns[i].left.spec_halted() is None,
    ensures
        result is Ok,
        coverage::seen(
            semantics::visit(walker, value, region, visit::answers_of(turns), 0).calls,
            match order {
                WalkOrder::PreOrder => Phase::Enter,
                WalkOrder::PostOrder => Phase::Exit,
            },
        ) == coverage::ordered(value, region, order),
{
    let answers = visit::answers_of(turns);
    assert forall|k: int| 0 <= k < turns.len() implies composition::advances(
        #[trigger] answers[k],
    ) by {
        assert(turns[k].answer() == answers[k]);
    }
    law_sound_graph_is_visited_whole(walker, value, region, answers);
}

} // verus!
