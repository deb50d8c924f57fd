//! How the walk of a sequence is made of the walks of its elements.
use core::ops::ControlFlow;
use vstd::prelude::*;

use crate::error::{Error, Place};
use crate::kind::{DefRegionKind, Phase};
use crate::laws::answers;
use crate::laws::plan;
use crate::outcome;
use crate::outcome::{IntoVisitResult, NativeResult, VisitOutcome, VisitResult, WalkResult};
use crate::semantics;
use crate::semantics::{Call, Trip};
use crate::step::{Answer, NativeWalker};
use crate::tree::{Content, Entry, Field, Value};
use crate::value::VisitValue;
use crate::visit;
use crate::visit::{NativeVisit, PhaseVisitor, Turn};

verus! {

/// Whether the answer is to advance.
pub open spec fn advances<P, E>(answer: Answer<P, E>) -> bool {
    answer.result == Ok::<WalkResult<P>, Error<E>>(WalkResult::Advance) && answer.halted is None
}

/// Whether every callback of the trip answers `Advance`.
pub open spec fn steady<P, E>(trip: Trip<P, E>, answers: Seq<Answer<P, E>>, from: nat) -> bool {
    forall|k: int| from <= k < from + trip.calls.len() ==> advances(#[trigger] answers[k])
}

/// Callbacks that only advance make the same walk of a value wherever it stands.
pub proof fn law_steady_walks_are_alike<P, E>(
    walker: NativeWalker,
    value: Value<E>,
    region: DefRegionKind,
    answers: Seq<Answer<P, E>>,
    from: nat,
    others: Seq<Answer<P, E>>,
    at: nat,
)
    requires
        steady(semantics::visit(walker, value, region, answers, from), answers, from),
        steady(semantics::visit(walker, value, region, others, at), others, at),
    ensures
        semantics::visit(walker, value, region, others, at) == semantics::visit(
            walker,
            value,
            region,
            answers,
            from,
        ),
{
    let trip = semantics::visit::<P, E>(walker, value, region, answers, from);
    let other = semantics::visit::<P, E>(walker, value, region, others, at);
    assert forall|i: int| 0 <= i < trip.calls.len() && i < other.calls.len() implies answers::alike(
        #[trigger] trip.calls[i],
        answers[from + i],
        others[at + i],
    ) by {
        assert(advances(others[at + i]));
        assert(advances(answers[from + i]));
    }
    answers::law_answers_decide(walker, value, region, answers, from, others, at);
}

/// The callbacks of the walks of the elements from `i` on, one walk after the other,
/// where the walk of an element on its own is given by its answers in `parts`.
pub open spec fn element_calls<P, E>(
    walker: NativeWalker,
    cells: Seq<Value<E>>,
    region: DefRegionKind,
    parts: Seq<Seq<Answer<P, E>>>,
    i: nat,
) -> Seq<Call<E>>
    decreases cells.len() - i,
{
    if i >= cells.len() {
        Seq::empty()
    } else {
        semantics::visit(walker, cells[i as int], region, parts[i as int], 0).calls + element_calls(
            walker,
            cells,
            region,
            parts,
            i + 1,
        )
    }
}

/// Whether each element on its own is walked well by callbacks that only advance.
pub open spec fn elements_walked<P, E>(
    walker: NativeWalker,
    cells: Seq<Value<E>>,
    region: DefRegionKind,
    parts: Seq<Seq<Answer<P, E>>>,
) -> bool {
    forall|i: int|
        0 <= i < cells.len() ==> {
            let part = semantics::visit(walker, #[trigger] cells[i], region, parts[i], 0);
            part.result is Ok && steady(part, parts[i], 0)
        }
}

proof fn lemma_cells_compose<P, E>(
    walker: NativeWalker,
    cells: Seq<Value<E>>,
    i: nat,
    region: DefRegionKind,
    answers: Seq<Answer<P, E>>,
    from: nat,
    parts: Seq<Seq<Answer<P, E>>>,
)
    requires
        steady(semantics::visit_cells(walker, cells, i, region, answers, from), answers, from),
        elements_walked(walker, cells, region, parts),
    ensures
        semantics::visit_cells(walker, cells, i, region, answers, from) == (Trip::<P, E> {
            calls: element_calls(walker, cells, region, parts, i),
            result: Ok(()),
        }),
    decreases cells.len() - i,
{
    if i < cells.len() {
        let cell = cells[i as int];
        let item = semantics::visit::<P, E>(walker, cell, region, answers, from).at(
            Place::SequenceItem { index: i as usize },
        );
        let next = from + item.calls.len();
        let rest = semantics::visit_cells::<P, E>(walker, cells, i + 1, region, answers, next);
        law_steady_walks_are_alike(walker, cell, region, parts[i as int], 0, answers, from);
        lemma_cells_compose(walker, cells, i + 1, region, answers, next, parts);
    }
}

/// With callbacks that only advance, the walk of an array or a list is its enter
/// callback, the walks of its elements one after the other, and its exit callback: if
/// the elements on their own are walked well, so is the sequence.
pub proof fn law_sequence_is_its_elements<P, E>(
    walker: NativeWalker,
    value: Value<E>,
    region: DefRegionKind,
    answers: Seq<Answer<P, E>>,
    parts: Seq<Seq<Answer<P, E>>>,
)
    requires
        value.type_index == 71 || value.type_index == 75,
        value.content matches Content::Sequence { length, cells } && 0 <= length <= usize::MAX && (
        cells is None ==> length == 0),
        steady(semantics::visit(walker, value, region, answers, 0), answers, 0),
        elements_walked(walker, value.cells(), region, parts),
    ensures
        semantics::visit(walker, value, region, answers, 0) == (Trip::<P, E> {
            calls: seq![Call { phase: Phase::Enter, value, region }] + element_calls(
                walker,
                value.cells(),
                region,
                parts,
                0,
            ) + seq![Call { phase: Phase::Exit, value, region }],
            result: Ok(()),
        }),
{
    let trip = semantics::visit::<P, E>(walker, value, region, answers, 0);
    let below = semantics::children::<P, E>(walker, value, region, answers, 1);
    assert(advances(answers[0]));
    if let Content::Sequence { cells: Some(cells), .. } = value.content {
        lemma_cells_compose(walker, cells@, 0, region, answers, 1, parts);
    }
    assert(below.result is Ok);
    assert(advances(answers[below.calls.len() as int + 1]));
}

/// Whether all entries can be read, and each key and each value on its own is walked
/// well by callbacks that only advance.
pub open spec fn entries_walked<P, E>(
    walker: NativeWalker,
    entries: Seq<Entry<E>>,
    region: DefRegionKind,
    keys: Seq<Seq<Answer<P, E>>>,
    values: Seq<Seq<Answer<P, E>>>,
) -> bool {
    forall|i: int|
        0 <= i < entries.len() ==> {
            let entry = #[trigger] entries[i];
            &&& i + 1 < entries.len() ==> entry.next is Ok
            &&& entry.key matches Ok(key) && {
                let part = semantics::visit(walker, key, region, keys[i], 0);
                part.result is Ok && steady(part, keys[i], 0)
            }
            &&& entry.value matches Ok(value) && {
                let part = semantics::visit(walker, value, region, values[i], 0);
                part.result is Ok && steady(part, values[i], 0)
            }
        }
}

/// The callbacks of the walks of the entries from `i` on: for each entry those of its
/// key, then those of its value.
pub open spec fn entry_calls<P, E>(
    walker: NativeWalker,
    entries: Seq<Entry<E>>,
    region: DefRegionKind,
    keys: Seq<Seq<Answer<P, E>>>,
    values: Seq<Seq<Answer<P, E>>>,
    i: nat,
) -> Seq<Call<E>>
    decreases entries.len() - i,
{
    if i >= entries.len() {
        Seq::empty()
    } else {
        let entry = entries[i as int];
        semantics::visit(walker, entry.key->Ok_0, region, keys[i as int], 0).calls
            + semantics::visit(walker, entry.value->Ok_0, region, values[i as int], 0).calls
            + entry_calls(walker, entries, region, keys, values, i + 1)
    }
}

proof fn lemma_no_stop<P, E>(
    walker: NativeWalker,
    dict: bool,
    entries: Seq<Entry<E>>,
    i: nat,
    region: DefRegionKind,
    keys: Seq<Seq<Answer<P, E>>>,
    values: Seq<Seq<Answer<P, E>>>,
)
    requires
        entries_walked(walker, entries, region, keys, values),
    ensures
        plan::first_stop(plan::entries_plan(dict, entries, i, region)) is None,
    decreases entries.len() - i,
{
    if i < entries.len() {
        lemma_no_stop(walker, dict, entries, i + 1, region, keys, values);
        let entry = entries[i as int];
        let legs = plan::entries_plan(dict, entries, i, region);
        assert(legs.drop_first().drop_first() =~= plan::entries_plan(
            dict,
            entries,
            i + 1,
            region,
        ));
        assert(plan::first_stop(legs) == plan::first_stop(legs.drop_first()));
        assert(legs.drop_first()[0] == legs[1]);
        assert(plan::first_stop(legs.drop_first()) == plan::first_stop(
            legs.drop_first().drop_first(),
        ));
    }
}

proof fn lemma_entries_compose<P, E>(
    walker: NativeWalker,
    dict: bool,
    entries: Seq<Entry<E>>,
    i: nat,
    region: DefRegionKind,
    answers: Seq<Answer<P, E>>,
    from: nat,
    keys: Seq<Seq<Answer<P, E>>>,
    values: Seq<Seq<Answer<P, E>>>,
)
    requires
        steady(
            plan::journey(
                walker,
                plan::entries_plan(dict, entries, i, region),
                answers,
                from,
            ),
            answers,
            from,
        ),
        entries_walked(walker, entries, region, keys, values),
    ensures
        plan::journey(walker, plan::entries_plan(dict, entries, i, region), answers, from) == (
        Trip::<P, E> {
            calls: entry_calls(walker, entries, region, keys, values, i),
            result: Ok(()),
        }),
    decreases entries.len() - i,
{
    if i < entries.len() {
        let entry = entries[i as int];
        let (key, value) = (entry.key->Ok_0, entry.value->Ok_0);
        let legs = plan::entries_plan(dict, entries, i, region);
        let rest = plan::entries_plan(dict, entries, i + 1, region);
        let first = semantics::visit::<P, E>(walker, key, region, answers, from);
        let next = from + first.calls.len();
        let second = semantics::visit::<P, E>(walker, value, region, answers, next);
        let after = next + second.calls.len();
        assert(legs =~= (seq![legs[0]] + seq![legs[1]]) + rest);
        plan::lemma_journey_one(walker, legs[0], answers, from);
        plan::lemma_journey_one(walker, legs[1], answers, next);
        plan::lemma_journey_add(walker, seq![legs[0]], seq![legs[1]], answers, from);
        plan::lemma_journey_add(walker, seq![legs[0]] + seq![legs[1]], rest, answers, from);
        law_steady_walks_are_alike(walker, key, region, keys[i as int], 0, answers, from);
        law_steady_walks_are_alike(walker, value, region, values[i as int], 0, answers, next);
        lemma_entries_compose(
            walker,
            dict,
            entries,
            i + 1,
            region,
            answers,
            after,
            keys,
            values,
        );
    }
}

/// With callbacks that only advance, the walk of a map or a dict is its enter callback,
/// for each entry the walk of its key and that of its value, and its exit callback: if
/// all entries can be read and their keys and values on their own are walked well, so is
/// the map, however many there are.
pub proof fn law_map_is_its_entries<P, E>(
    walker: NativeWalker,
    value: Value<E>,
    region: DefRegionKind,
    answers: Seq<Answer<P, E>>,
    entries: Vec<Entry<E>>,
    keys: Seq<Seq<Answer<P, E>>>,
    values: Seq<Seq<Answer<P, E>>>,
)
    requires
        value.type_index == 72 || value.type_index == 76,
        value.content matches Content::Mapping { size: Ok(size), iter: Ok(()), entries: held }
            && held == entries && 0 <= size <= usize::MAX && size == entries@.len(),
        steady(semantics::visit(walker, value, region, answers, 0), answers, 0),
        entries_walked(walker, entries@, region, keys, values),
    ensures
        semantics::visit(walker, value, region, answers, 0) == (Trip::<P, E> {
            calls: seq![Call { phase: Phase::Enter, value, region }] + entry_calls(
                walker,
                entries@,
                region,
                keys,
                values,
                0,
            ) + seq![Call { phase: Phase::Exit, value, region }],
            result: Ok(()),
        }),
{
    let dict = value.type_index == 76;
    let legs = plan::entries_plan(dict, entries@, 0, region);
    let below = plan::journey::<P, E>(walker, legs, answers, 1);
    plan::law_walk_of_a_value(walker, value, region, answers, 0);
    lemma_no_stop(walker, dict, entries@, 0, region, keys, values);
    assert(advances(answers[0]));
    assert(plan::plan(walker, value, region) =~= legs);
    lemma_entries_compose(walker, dict, entries@, 0, region, answers, 1, keys, values);
    assert(advances(answers[below.calls.len() as int + 1]));
}

/// The region in which the value of a field with these flags is visited.
pub open spec fn inner_region(flags: i64, region: DefRegionKind) -> DefRegionKind {
    if flags & 4096 != 0 {
        DefRegionKind::NonRecursive
    } else if flags & 16 != 0 {
        DefRegionKind::Recursive
    } else {
        region
    }
}

/// Whether each field can be read or has bit 3 set, and the value of each field that has
/// not is on its own walked well by callbacks that only advance.
pub open spec fn fields_walked<P, E>(
    walker: NativeWalker,
    fields: Seq<Field<E>>,
    region: DefRegionKind,
    parts: Seq<Seq<Answer<P, E>>>,
) -> bool {
    forall|i: int|
        0 <= i < fields.len() ==> {
            let field = #[trigger] fields[i];
            field.flags & 8 != 0 || (field.getter matches Some(Ok(child)) && {
                let part = semantics::visit(
                    walker,
                    child,
                    inner_region(field.flags, region),
                    parts[i],
                    0,
                );
                part.result is Ok && steady(part, parts[i], 0)
            })
        }
}

/// The callbacks of the walks of the fields from `i` on that do not have bit 3 set.
pub open spec fn field_calls<P, E>(
    walker: NativeWalker,
    fields: Seq<Field<E>>,
    region: DefRegionKind,
    parts: Seq<Seq<Answer<P, E>>>,
    i: nat,
) -> Seq<Call<E>>
    decreases fields.len() - i,
{
    if i >= fields.len() {
        Seq::empty()
    } else {
        let field = fields[i as int];
        let rest = field_calls(walker, fields, region, parts, i + 1);
        if field.flags & 8 != 0 {
            rest
        } else {
            semantics::visit(
                walker,
                field.getter->0->Ok_0,
                inner_region(field.flags, region),
                parts[i as int],
                0,
            ).calls + rest
        }
    }
}

proof fn lemma_fields_compose<P, E>(
    walker: NativeWalker,
    fields: Seq<Field<E>>,
    i: nat,
    region: DefRegionKind,
    answers: Seq<Answer<P, E>>,
    from: nat,
    parts: Seq<Seq<Answer<P, E>>>,
)
    requires
        steady(
            plan::journey(walker, plan::fields_plan(fields, i, region), answers, from),
            answers,
            from,
        ),
        fields_walked(walker, fields, region, parts),
    ensures
        plan::journey(walker, plan::fields_plan(fields, i, region), answers, from) == (Trip::<
            P,
            E,
        > { calls: field_calls(walker, fields, region, parts, i), result: Ok(()) }),
    decreases fields.len() - i,
{
    if i < fields.len() {
        let field = fields[i as int];
        let legs = plan::fields_plan(fields, i, region);
        let here = plan::field_plan(field, region);
        let rest = plan::fields_plan(fields, i + 1, region);
        if field.flags & 8 != 0 {
            assert(legs =~= rest);
            lemma_fields_compose(walker, fields, i + 1, region, answers, from, parts);
        } else {
            let child = field.getter->0->Ok_0;
            let inner = inner_region(field.flags, region);
            let first = semantics::visit::<P, E>(walker, child, inner, answers, from);
            assert(here =~= seq![here[0]]);
            plan::lemma_journey_one(walker, here[0], answers, from);
            plan::lemma_journey_add(walker, here, rest, answers, from);
            law_steady_walks_are_alike(walker, child, inner, parts[i as int], 0, answers, from);
            lemma_fields_compose(
                walker,
                fields,
                i + 1,
                region,
                answers,
                from + first.calls.len(),
                parts,
            );
        }
    }
}

/// With callbacks that only advance, the walk of an object that is no container and
/// whose type has no hook is its enter callback, the walks of its fields one after the
/// other, and its exit callback: if the fields on their own are walked well, so is the
/// object.
pub proof fn law_object_is_its_fields<P, E>(
    walker: NativeWalker,
    value: Value<E>,
    region: DefRegionKind,
    answers: Seq<Answer<P, E>>,
    fields: Vec<Field<E>>,
    parts: Seq<Seq<Answer<P, E>>>,
)
    requires
        value.type_index >= 64,
        value.type_index != 71,
        value.type_index != 72,
        value.type_index != 75,
        value.type_index != 76,
        walker.structural_visit ==> value.hook is None || value.hook == Some(0i32),
        value.content == (Content::Object { fields: Some(fields) }),
        steady(semantics::visit(walker, value, region, answers, 0), answers, 0),
        fields_walked(walker, fields@, region, parts),
    ensures
        semantics::visit(walker, value, region, answers, 0) == (Trip::<P, E> {
            calls: seq![Call { phase: Phase::Enter, value, region }] + field_calls(
                walker,
                fields@,
                region,
                parts,
                0,
            ) + seq![Call { phase: Phase::Exit, value, region }],
            result: Ok(()),
        }),
{
    let legs = plan::fields_plan(fields@, 0, region);
    let below = plan::journey::<P, E>(walker, legs, answers, 1);
    plan::law_walk_of_a_value(walker, value, region, answers, 0);
    assert(advances(answers[0]));
    assert(plan::plan(walker, value, region) =~= legs);
    lemma_fields_compose(walker, fields@, 0, region, answers, 1, parts);
    assert(advances(answers[below.calls.len() as int + 1]));
}

/// With callbacks that only advance, the walk of an inline value whose type has no hook
/// is its enter callback and its exit callback.
pub proof fn law_inline_value_is_a_leaf<P, E>(
    walker: NativeWalker,
    value: Value<E>,
    region: DefRegionKind,
    answers: Seq<Answer<P, E>>,
)
    requires
        value.type_index < 64,
        value.type_index != 0,
        walker.structural_visit ==> value.hook is None || value.hook == Some(0i32),
        steady(semantics::visit(walker, value, region, answers, 0), answers, 0),
    ensures
        semantics::visit(walker, value, region, answers, 0) == (Trip::<P, E> {
            calls: seq![
                Call { phase: Phase::Enter, value, region },
                Call { phase: Phase::Exit, value, region },
            ],
            result: Ok(()),
        }),
{
    let legs = plan::plan(walker, value, region);
    plan::law_walk_of_a_value(walker, value, region, answers, 0);
    assert(advances(answers[0]));
    assert(legs =~= Seq::empty());
    assert(advances(answers[1]));
    assert(semantics::visit(walker, value, region, answers, 0).calls =~= seq![
        Call { phase: Phase::Enter, value, region },
        Call { phase: Phase::Exit, value, region },
    ]);
}

proof fn lemma_turns_steady<'a, S, P, E, N: NativeVisit<'a, S, P, E>>(
    visitor: N,
    walker: NativeWalker,
    value: Value<E>,
    region: DefRegionKind,
    before: S,
    turns: Seq<Turn<S, P, E>>,
    after: S,
    result: NativeResult<P, E>,
)
    requires
        visit::walked(visitor, walker, value, region, before, turns, after, result),
        forall|i: int|
            0 <= i < turns.len() ==> (#[trigger] turns[i]).answer() == (Answer::<P, E> {
                result: Ok(WalkResult::Advance),
                halted: None,
            }),
    ensures
        steady(
            semantics::visit(walker, value, region, visit::answers_of(turns), 0),
            visit::answers_of(turns),
            0,
        ),
{
    let answers = visit::answers_of(turns);
    assert forall|k: int| 0 <= k < turns.len() implies advances(#[trigger] answers[k]) by {
        assert(turns[k].answer() == answers[k]);
    }
}

/// Whether the callback answers nothing but `Advance`.
pub open spec fn only_advances<'a, F, O, P, E>(callback: F) -> bool where
    F: FnMut(&VisitValue<&'a Value<E>>, Phase) -> O,
    O: IntoVisitResult<P, E>,
 {
    forall|
        value: &VisitValue<&'a Value<E>>,
        phase: Phase,
        answer: O,
        result: VisitResult<P, E>,
    |
        #[trigger] call_ensures(callback, (value, phase), answer) && #[trigger] answer.stands_for(
            result,
        ) ==> result == VisitResult::<P, E>::Ok(WalkResult::Advance)
}

proof fn lemma_callback_steady<'a, F, O, P, E>(
    walker: NativeWalker,
    value: Value<E>,
    region: DefRegionKind,
    callback: F,
    turns: Seq<Turn<F, P, E>>,
    result: NativeResult<P, E>,
) where F: FnMut(&VisitValue<&'a Value<E>>, Phase) -> O, O: IntoVisitResult<P, E>
    requires
        only_advances::<F, O, P, E>(callback),
        visit::walked(PhaseVisitor, walker, value, region, callback, turns, callback, result),
    ensures
        steady(
            semantics::visit(walker, value, region, visit::answers_of(turns), 0),
            visit::answers_of(turns),
            0,
        ),
{
    let calls = semantics::visit::<P, E>(walker, value, region, visit::answers_of(turns), 0).calls;
    assert forall|i: int| 0 <= i < turns.len() implies (#[trigger] turns[i]).after
        == turns[i].before by {
        assert(turns[i].answers_call(PhaseVisitor, walker, calls[i]));
    }
    visit::lemma_state_kept(callback, turns, callback);
    assert forall|i: int| 0 <= i < turns.len() implies (#[trigger] turns[i]).answer() == (Answer::<
        P,
        E,
    > { result: Ok(WalkResult::Advance), halted: None }) by {
        assert(turns[i].answers_call(PhaseVisitor, walker, calls[i]));
    }
    lemma_turns_steady(
        PhaseVisitor,
        walker,
        value,
        region,
        callback,
        turns,
        callback,
        result,
    );
}

/// [`crate::visit::walk`] of an array or a list with a callback that only advances is
/// its enter callback, the walks of its elements one after the other, and its exit
/// callback: where [`crate::visit::walk`] visits each element on its own to the end,
/// it visits the sequence to the end. An element that is none adds no callback.
pub proof fn law_walk_of_sequence<'a, F, O, P, E>(
    walker: NativeWalker,
    root: Value<E>,
    region: DefRegionKind,
    callback: F,
    turns: Seq<Turn<F, P, E>>,
    result: NativeResult<P, E>,
    parts: Seq<Seq<Turn<F, P, E>>>,
) where F: FnMut(&VisitValue<&'a Value<E>>, Phase) -> O, O: IntoVisitResult<P, E>
    requires
        root.type_index == 71 || root.type_index == 75,
        root.content matches Content::Sequence { length, cells } && 0 <= length <= usize::MAX && (
        cells is None ==> length == 0),
        only_advances::<F, O, P, E>(callback),
        visit::walked(PhaseVisitor, walker, root, region, callback, turns, callback, result),
        parts.len() == root.cells().len(),
        forall|i: int|
            0 <= i < parts.len() ==> visit::walked(
                PhaseVisitor,
                walker,
                root.cells()[i],
                region,
                callback,
                #[trigger] parts[i],
                callback,
                NativeResult::<P, E>::Ok(()),
            ),
    ensures
        outcome::reported(result) == Ok::<VisitOutcome<P>, Error<E>>(ControlFlow::Continue(())),
        semantics::visit(walker, root, region, visit::answers_of(turns), 0).calls == seq![
            Call { phase: Phase::Enter, value: root, region },
        ] + element_calls(
            walker,
            root.cells(),
            region,
            parts.map_values(|part: Seq<Turn<F, P, E>>| visit::answers_of(part)),
            0,
        ) + seq![Call { phase: Phase::Exit, value: root, region }],
{
    let cells = root.cells();
    let all = parts.map_values(|part: Seq<Turn<F, P, E>>| visit::answers_of(part));
    lemma_callback_steady::<F, O, P, E>(walker, root, region, callback, turns, result);
    assert forall|i: int| 0 <= i < cells.len() implies {
        let part = semantics::visit(walker, #[trigger] cells[i], region, all[i], 0);
        part.result is Ok && steady(part, all[i], 0)
    } by {
        assert(all[i] == visit::answers_of(parts[i]));
        lemma_callback_steady::<F, O, P, E>(walker, cells[i], region, callback, parts[i], Ok(()));
    }
    law_sequence_is_its_elements(walker, root, region, visit::answers_of(turns), all);
}

} // verus!
