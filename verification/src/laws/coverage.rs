//! What a walk covers: each value once, before or after what is below it.
use vstd::prelude::*;

use crate::agreement;
use crate::error::Error;
use crate::kind;
use crate::kind::{DefRegionKind, Phase, WalkOrder};
use crate::laws::composition;
use crate::outcome::{NativeResult, VisitResult, WalkResult};
use crate::semantics;
use crate::semantics::{Call, Trip};
use crate::step::{Answer, NativeWalker};
use crate::tree::{Content, Entry, Field, Value};
use crate::visit;
use crate::visit::{DispatchVisitor, Turn, VisitDispatch};

verus! {

/// The values below `value` and itself, each with its definition region: a value
/// before its children in pre-order, behind them in post-order. Elements of a
/// sequence come in order, keys before their values, reflected fields in order and
/// without those that are flagged to be ignored. The none value has no place.
pub open spec fn ordered<E>(
    value: Value<E>,
    region: DefRegionKind,
    order: WalkOrder,
) -> Seq<(Value<E>, DefRegionKind)>
    decreases value, 1nat, 0nat,
{
    if value.type_index == 0 {
        Seq::empty()
    } else {
        let below = ordered_children(value, region, order);
        match order {
            WalkOrder::PreOrder => seq![(value, region)] + below,
            WalkOrder::PostOrder => below + seq![(value, region)],
        }
    }
}

pub open spec fn ordered_children<E>(
    value: Value<E>,
    region: DefRegionKind,
    order: WalkOrder,
) -> Seq<(Value<E>, DefRegionKind)>
    decreases value, 0nat, 0nat,
{
    if value.type_index == 71 || value.type_index == 75 {
        match value.content {
            Content::Sequence { cells: Some(cells), .. } => ordered_cells(
                cells@,
                0,
                region,
                order,
            ),
            _ => Seq::empty(),
        }
    } else if value.type_index == 72 || value.type_index == 76 {
        match value.content {
            Content::Mapping { entries, .. } => ordered_entries(entries@, 0, region, order),
            _ => Seq::empty(),
        }
    } else if value.type_index >= 64 {
        match value.content {
            Content::Object { fields: Some(fields) } => ordered_fields(fields@, 0, region, order),
            _ => Seq::empty(),
        }
    } else {
        Seq::empty()
    }
}

pub open spec fn ordered_cells<E>(
    cells: Seq<Value<E>>,
    i: nat,
    region: DefRegionKind,
    order: WalkOrder,
) -> Seq<(Value<E>, DefRegionKind)>
    decreases cells, 0nat, cells.len() - i,
{
    if i >= cells.len() {
        Seq::empty()
    } else {
        ordered(cells[i as int], region, order) + ordered_cells(cells, i + 1, region, order)
    }
}

pub open spec fn ordered_item<E>(
    result: Result<Value<E>, E>,
    region: DefRegionKind,
    order: WalkOrder,
) -> Seq<(Value<E>, DefRegionKind)>
    decreases result, 0nat, 0nat,
{
    match result {
        Ok(value) => ordered(value, region, order),
        Err(_) => Seq::empty(),
    }
}

pub open spec fn ordered_entries<E>(
    entries: Seq<Entry<E>>,
    i: nat,
    region: DefRegionKind,
    order: WalkOrder,
) -> Seq<(Value<E>, DefRegionKind)>
    decreases entries, 0nat, entries.len() - i,
{
    if i >= entries.len() {
        Seq::empty()
    } else {
        ordered_item(entries[i as int].key, region, order) + ordered_item(
            entries[i as int].value,
            region,
            order,
        ) + ordered_entries(entries, i + 1, region, order)
    }
}

pub open spec fn ordered_fields<E>(
    fields: Seq<Field<E>>,
    i: nat,
    region: DefRegionKind,
    order: WalkOrder,
) -> Seq<(Value<E>, DefRegionKind)>
    decreases fields, 0nat, fields.len() - i,
{
    if i >= fields.len() {
        Seq::empty()
    } else {
        let field = fields[i as int];
        let here = if field.flags & 8 != 0 {
            Seq::empty()
        } else {
            match field.getter {
                Some(result) => ordered_item(
                    result,
                    composition::inner_region(field.flags, region),
                    order,
                ),
                None => Seq::empty(),
            }
        };
        here + ordered_fields(fields, i + 1, region, order)
    }
}

/// The phase in which handlers of the given order run.
pub open spec fn phase_of(order: WalkOrder) -> Phase {
    match order {
        WalkOrder::PreOrder => Phase::Enter,
        WalkOrder::PostOrder => Phase::Exit,
    }
}

/// The values on which callbacks run in the given phase, in order, each with its
/// definition region.
pub open spec fn seen<E>(calls: Seq<Call<E>>, phase: Phase) -> Seq<(Value<E>, DefRegionKind)>
    decreases calls.len(),
{
    if calls.len() == 0 {
        Seq::empty()
    } else {
        let call = calls.last();
        let before = seen(calls.drop_last(), phase);
        if call.phase == phase {
            before.push((call.value, call.region))
        } else {
            before
        }
    }
}

proof fn lemma_seen_add<E>(first: Seq<Call<E>>, second: Seq<Call<E>>, phase: Phase)
    ensures
        seen(first + second, phase) == seen(first, phase) + seen(second, phase),
    decreases second.len(),
{
    if second.len() == 0 {
        assert(first + second =~= first);
        assert(seen(first, phase) + seen(second, phase) =~= seen(first, phase));
    } else {
        assert((first + second).drop_last() =~= first + second.drop_last());
        lemma_seen_add(first, second.drop_last(), phase);
        assert(seen(first + second, phase) =~= seen(first, phase) + seen(second, phase));
    }
}

proof fn lemma_seen_one<E>(call: Call<E>, phase: Phase)
    ensures
        seen(seq![call], phase) == if call.phase == phase {
            seq![(call.value, call.region)]
        } else {
            Seq::empty()
        },
{
    assert(seq![call].drop_last() =~= Seq::<Call<E>>::empty());
    reveal_with_fuel(seen, 2);
    assert(seen(seq![call], phase) =~= if call.phase == phase {
        seq![(call.value, call.region)]
    } else {
        Seq::empty()
    });
}

/// No enter callback of the trip asked to leave out what is below its value.
pub open spec fn nothing_skipped<P, E>(
    trip: Trip<P, E>,
    answers: Seq<Answer<P, E>>,
    from: nat,
) -> bool {
    forall|i: int|
        0 <= i < trip.calls.len() && (#[trigger] trip.calls[i]).phase == Phase::Enter
            ==> answers[from + i].result != Ok::<WalkResult<P>, Error<E>>(WalkResult::Skip)
}

proof fn lemma_nothing_skipped_split<P, E>(
    trip: Trip<P, E>,
    rest: Trip<P, E>,
    answers: Seq<Answer<P, E>>,
    from: nat,
)
    requires
        trip.result is Ok,
        nothing_skipped(trip.followed_by(rest), answers, from),
    ensures
        nothing_skipped(trip, answers, from),
        nothing_skipped(rest, answers, from + trip.calls.len()),
{
    let both = trip.followed_by(rest);
    let n = trip.calls.len() as int;
    assert forall|i: int|
        0 <= i < trip.calls.len() && (#[trigger] trip.calls[i]).phase
            == Phase::Enter implies answers[from + i].result != Ok::<WalkResult<P>, Error<E>>(WalkResult::Skip) by {
        assert(both.calls[i] == trip.calls[i]);
    }
    assert forall|i: int|
        0 <= i < rest.calls.len() && (#[trigger] rest.calls[i]).phase
            == Phase::Enter implies answers[from + n + i].result != Ok::<WalkResult<P>, Error<E>>(WalkResult::Skip) by {
        assert(both.calls[n + i] == rest.calls[i]);
    }
}

proof fn lemma_complete_visit<P, E>(
    walker: NativeWalker,
    value: Value<E>,
    region: DefRegionKind,
    answers: Seq<Answer<P, E>>,
    from: nat,
    order: WalkOrder,
)
    requires
        semantics::visit(walker, value, region, answers, from).result is Ok,
        nothing_skipped(semantics::visit(walker, value, region, answers, from), answers, from),
        value.wf(),
    ensures
        seen(semantics::visit(walker, value, region, answers, from).calls, phase_of(order))
            == ordered(value, region, order),
    decreases value, 1nat, 0nat,
{
    let trip = semantics::visit::<P, E>(walker, value, region, answers, from);
    let phase = phase_of(order);
    if value.type_index != 0 {
        assert(trip.calls[0].phase == Phase::Enter);
        assert(answers[from as int].result != Ok::<WalkResult<P>, Error<E>>(WalkResult::Skip));
        let below = semantics::children::<P, E>(walker, value, region, answers, from + 1);
        let enter = seq![Call { phase: Phase::Enter, value, region }];
        let exit = seq![Call { phase: Phase::Exit, value, region }];
        assert forall|i: int|
            0 <= i < below.calls.len() && (#[trigger] below.calls[i]).phase
                == Phase::Enter implies answers[from + 1 + i].result != Ok::<WalkResult<P>, Error<E>>(WalkResult::Skip) by {
            assert(trip.calls[i + 1] == below.calls[i]);
        }
        lemma_complete_children(walker, value, region, answers, from + 1, order);
        lemma_seen_add(enter, below.calls, phase);
        lemma_seen_add(enter + below.calls, exit, phase);
        lemma_seen_one(enter[0], phase);
        lemma_seen_one(exit[0], phase);
        assert(seen(trip.calls, phase) =~= ordered(value, region, order));
    }
}

proof fn lemma_complete_children<P, E>(
    walker: NativeWalker,
    value: Value<E>,
    region: DefRegionKind,
    answers: Seq<Answer<P, E>>,
    from: nat,
    order: WalkOrder,
)
    requires
        semantics::children(walker, value, region, answers, from).result is Ok,
        nothing_skipped(semantics::children(walker, value, region, answers, from), answers, from),
        value.wf(),
    ensures
        seen(semantics::children(walker, value, region, answers, from).calls, phase_of(order))
            == ordered_children(value, region, order),
    decreases value, 0nat, 0nat,
{
    if value.type_index == 71 || value.type_index == 75 {
        if let Content::Sequence { cells: Some(cells), .. } = value.content {
            lemma_complete_cells(walker, cells@, 0, region, answers, from, order);
        }
    } else if value.type_index == 72 || value.type_index == 76 {
        if let Content::Mapping { size, entries, .. } = value.content {
            if size->Ok_0 == 0 {
                assert(entries@.len() == 0);
            } else if value.type_index == 76 {
                agreement::lemma_dict_readable(entries@, 0);
                lemma_complete_dict(walker, entries@, 0, region, answers, from, order);
            } else {
                lemma_complete_map(walker, entries@, 0, region, answers, from, order);
            }
        }
    } else if value.type_index >= 64 {
        if let Content::Object { fields: Some(fields) } = value.content {
            lemma_complete_fields(walker, fields@, 0, region, answers, from, order);
        }
    }
}

proof fn lemma_complete_cells<P, E>(
    walker: NativeWalker,
    cells: Seq<Value<E>>,
    i: nat,
    region: DefRegionKind,
    answers: Seq<Answer<P, E>>,
    from: nat,
    order: WalkOrder,
)
    requires
        semantics::visit_cells(walker, cells, i, region, answers, from).result is Ok,
        nothing_skipped(
            semantics::visit_cells(walker, cells, i, region, answers, from),
            answers,
            from,
        ),
        forall|j: int| 0 <= j < cells.len() ==> (#[trigger] cells[j]).wf(),
    ensures
        seen(
            semantics::visit_cells(walker, cells, i, region, answers, from).calls,
            phase_of(order),
        ) == ordered_cells(cells, i, region, order),
    decreases cells, 0nat, cells.len() - i,
{
    if i < cells.len() {
        let trip = semantics::visit::<P, E>(walker, cells[i as int], region, answers, from);
        let next = from + trip.calls.len();
        let rest = semantics::visit_cells::<P, E>(walker, cells, i + 1, region, answers, next);
        lemma_nothing_skipped_split(trip, rest, answers, from);
        lemma_complete_visit(walker, cells[i as int], region, answers, from, order);
        lemma_complete_cells(walker, cells, i + 1, region, answers, next, order);
        lemma_seen_add(trip.calls, rest.calls, phase_of(order));
    }
}

proof fn lemma_complete_dict<P, E>(
    walker: NativeWalker,
    entries: Seq<Entry<E>>,
    i: nat,
    region: DefRegionKind,
    answers: Seq<Answer<P, E>>,
    from: nat,
    order: WalkOrder,
)
    requires
        semantics::visit_dict(walker, entries, i, region, answers, from).result is Ok,
        nothing_skipped(
            semantics::visit_dict(walker, entries, i, region, answers, from),
            answers,
            from,
        ),
        forall|j: int| 0 <= j < entries.len() ==> (#[trigger] entries[j]).wf(),
        forall|j: int|
            0 <= j < entries.len() ==> (#[trigger] entries[j]).key is Ok && entries[j].value is Ok,
    ensures
        seen(
            semantics::visit_dict(walker, entries, i, region, answers, from).calls,
            phase_of(order),
        ) == ordered_entries(entries, i, region, order),
    decreases entries, 0nat, entries.len() - i,
{
    if i < entries.len() {
        let entry = entries[i as int];
        let (key, value) = (entry.key->Ok_0, entry.value->Ok_0);
        assert(entry.wf());
        let first = semantics::visit::<P, E>(walker, key, region, answers, from);
        let next = from + first.calls.len();
        let second = semantics::visit::<P, E>(walker, value, region, answers, next);
        let after = next + second.calls.len();
        let rest = semantics::visit_dict::<P, E>(walker, entries, i + 1, region, answers, after);
        assert(first.result is Ok && second.result is Ok);
        let pair = first.followed_by(second);
        assert(from + pair.calls.len() == after);
        lemma_nothing_skipped_split(pair, rest, answers, from);
        lemma_nothing_skipped_split(first, second, answers, from);
        lemma_complete_visit(walker, key, region, answers, from, order);
        lemma_complete_visit(walker, value, region, answers, next, order);
        lemma_complete_dict(walker, entries, i + 1, region, answers, after, order);
        lemma_seen_add(first.calls, second.calls, phase_of(order));
        lemma_seen_add(pair.calls, rest.calls, phase_of(order));
        assert(ordered_item(entry.key, region, order) == ordered(key, region, order));
        assert(ordered_item(entry.value, region, order) == ordered(value, region, order));
    }
}

proof fn lemma_complete_map<P, E>(
    walker: NativeWalker,
    entries: Seq<Entry<E>>,
    i: nat,
    region: DefRegionKind,
    answers: Seq<Answer<P, E>>,
    from: nat,
    order: WalkOrder,
)
    requires
        semantics::visit_map(walker, entries, i, region, answers, from).result is Ok,
        nothing_skipped(
            semantics::visit_map(walker, entries, i, region, answers, from),
            answers,
            from,
        ),
        forall|j: int| 0 <= j < entries.len() ==> (#[trigger] entries[j]).wf(),
    ensures
        seen(
            semantics::visit_map(walker, entries, i, region, answers, from).calls,
            phase_of(order),
        ) == ordered_entries(entries, i, region, order),
    decreases entries, 0nat, entries.len() - i,
{
    if i < entries.len() {
        let entry = entries[i as int];
        let (key, value) = (entry.key->Ok_0, entry.value->Ok_0);
        assert(entry.wf());
        let first = semantics::visit::<P, E>(walker, key, region, answers, from);
        let next = from + first.calls.len();
        let second = semantics::visit::<P, E>(walker, value, region, answers, next);
        let after = next + second.calls.len();
        assert(first.result is Ok && second.result is Ok);
        let pair = first.followed_by(second);
        assert(from + pair.calls.len() == after);
        let rest = if i + 1 == entries.len() {
            Trip::ends(Ok(()))
        } else {
            semantics::visit_map::<P, E>(walker, entries, i + 1, region, answers, after)
        };
        lemma_nothing_skipped_split(pair, rest, answers, from);
        lemma_nothing_skipped_split(first, second, answers, from);
        lemma_complete_visit(walker, key, region, answers, from, order);
        lemma_complete_visit(walker, value, region, answers, next, order);
        if i + 1 < entries.len() {
            lemma_complete_map(walker, entries, i + 1, region, answers, after, order);
        } else {
            assert(ordered_entries(entries, i + 1, region, order) =~= Seq::empty());
            assert(seen(rest.calls, phase_of(order)) =~= Seq::empty());
        }
        lemma_seen_add(first.calls, second.calls, phase_of(order));
        lemma_seen_add(pair.calls, rest.calls, phase_of(order));
        assert(ordered_item(entry.key, region, order) == ordered(key, region, order));
        assert(ordered_item(entry.value, region, order) == ordered(value, region, order));
    }
}

proof fn lemma_complete_fields<P, E>(
    walker: NativeWalker,
    fields: Seq<Field<E>>,
    i: nat,
    region: DefRegionKind,
    answers: Seq<Answer<P, E>>,
    from: nat,
    order: WalkOrder,
)
    requires
        semantics::visit_fields(walker, fields, i, region, answers, from).result is Ok,
        nothing_skipped(
            semantics::visit_fields(walker, fields, i, region, answers, from),
            answers,
            from,
        ),
        forall|j: int| 0 <= j < fields.len() ==> (#[trigger] fields[j]).wf(),
    ensures
        seen(
            semantics::visit_fields(walker, fields, i, region, answers, from).calls,
            phase_of(order),
        ) == ordered_fields(fields, i, region, order),
    decreases fields, 0nat, fields.len() - i,
{
    if i < fields.len() {
        let field = fields[i as int];
        let trip = semantics::visit_field::<P, E>(walker, field, region, answers, from);
        let next = from + trip.calls.len();
        let rest = semantics::visit_fields::<P, E>(walker, fields, i + 1, region, answers, next);
        lemma_nothing_skipped_split(trip, rest, answers, from);
        lemma_complete_fields(walker, fields, i + 1, region, answers, next, order);
        lemma_seen_add(trip.calls, rest.calls, phase_of(order));
        if field.flags & 8 == 0 {
            let child = field.getter->0->Ok_0;
            let inner = kind::region_of_field(field.flags, region);
            lemma_complete_visit(walker, child, inner, answers, from, order);
            assert(ordered_item(field.getter->0, inner, order) == ordered(child, inner, order));
        }
    }
}

/// A walk that went well and skipped nothing has visited the whole graph: its enter
/// callbacks have run on every value in pre-order, its exit callbacks on every value
/// in post-order, each once and in the definition region that its field gives it.
pub proof fn law_whole_graph_is_visited<P, E>(
    walker: NativeWalker,
    value: Value<E>,
    region: DefRegionKind,
    answers: Seq<Answer<P, E>>,
    order: WalkOrder,
)
    requires
        value.wf(),
        semantics::visit(walker, value, region, answers, 0).result is Ok,
        nothing_skipped(semantics::visit(walker, value, region, answers, 0), answers, 0),
    ensures
        seen(semantics::visit(walker, value, region, answers, 0).calls, phase_of(order))
            == ordered(value, region, order),
{
    lemma_complete_visit(walker, value, region, answers, 0, order);
}

/// A value whose enter callback asks to skip it is done: nothing below it is
/// visited, and its exit callback does not run.
pub proof fn law_skip_leaves_out_the_rest<P, E>(
    walker: NativeWalker,
    value: Value<E>,
    region: DefRegionKind,
    answers: Seq<Answer<P, E>>,
    from: nat,
)
    requires
        value.type_index != 0,
        answers[from as int] == (Answer::<P, E> { result: Ok(WalkResult::Skip), halted: None }),
    ensures
        semantics::visit(walker, value, region, answers, from) == (Trip::<P, E> {
            calls: seq![Call { phase: Phase::Enter, value, region }],
            result: Ok(()),
        }),
{
}

/// Typed handlers run once for each value, before or after its children according
/// to `order`, in a walk that goes well and, where handlers run first, in which none
/// asks to skip a value. Where they run last, what they answer skips nothing.
pub proof fn law_handlers_run_once<'a, V: VisitDispatch<'a, P, E>, P, E>(
    order: WalkOrder,
    walker: NativeWalker,
    value: Value<E>,
    region: DefRegionKind,
    before: V,
    turns: Seq<Turn<V, P, E>>,
    after: V,
)
    requires
        value.wf(),
        visit::walked(
            DispatchVisitor { order },
            walker,
            value,
            region,
            before,
            turns,
            after,
            NativeResult::<P, E>::Ok(()),
        ),
        order is PreOrder ==> forall|i: int|
            0 <= i < turns.len() ==> (#[trigger] turns[i]).result != VisitResult::<P, E>::Ok(
                WalkResult::Skip,
            ),
    ensures
        ({
            let calls = semantics::visit(
                walker,
                value,
                region,
                visit::answers_of(turns),
                0,
            ).calls;
            &&& turns.len() == calls.len()
            &&& seen(calls, phase_of(order)) == ordered(value, region, order)
            &&& forall|i: int|
                0 <= i < turns.len() && calls[i].phase != phase_of(order) ==> (
                #[trigger] turns[i]).after == turns[i].before
        }),
{
    let answers = visit::answers_of(turns);
    let trip = semantics::visit::<P, E>(walker, value, region, answers, 0);
    assert forall|i: int|
        0 <= i < trip.calls.len() && (#[trigger] trip.calls[i]).phase
            == Phase::Enter implies answers[0 + i].result != Ok::<WalkResult<P>, Error<E>>(WalkResult::Skip) by {
        assert(turns[i].answers_call(DispatchVisitor { order }, walker, trip.calls[i]));
        assert(answers[i] == turns[i].answer());
    }
    lemma_complete_visit(walker, value, region, answers, 0, order);
    assert forall|i: int|
        0 <= i < turns.len() && trip.calls[i].phase != phase_of(order) implies (
    #[trigger] turns[i]).after == turns[i].before by {
        assert(turns[i].answers_call(DispatchVisitor { order }, walker, trip.calls[i]));
    }
}

/// Whether some entry has a key or a value that cannot be read, or one behind which the
/// iterator cannot move on to the next.
pub open spec fn unreadable<E>(entries: Seq<Entry<E>>) -> bool {
    exists|i: int|
        0 <= i < entries.len() && ((#[trigger] entries[i]).key is Err || entries[i].value is Err
            || i + 1 < entries.len() && entries[i].next is Err)
}

proof fn lemma_unreadable<E>(entries: Seq<Entry<E>>, from: nat)
    requires
        exists|i: int|
            from <= i < entries.len() && ((#[trigger] entries[i]).key is Err
                || entries[i].value is Err || i + 1 < entries.len() && entries[i].next is Err),
    ensures
        semantics::dict_error(entries, from) is Some,
    decreases entries.len() - from,
{
    let i = choose|i: int|
        from <= i < entries.len() && ((#[trigger] entries[i]).key is Err || entries[i].value is Err
            || i + 1 < entries.len() && entries[i].next is Err);
    if i > from && from + 1 < entries.len() {
        assert(entries[i].key is Err || entries[i].value is Err || i + 1 < entries.len()
            && entries[i].next is Err);
        lemma_unreadable(entries, from + 1);
    }
}

/// All entries of a dict are read before a callback runs on one: where one cannot be
/// read, none is visited.
pub proof fn law_dict_is_read_first<P, E>(
    walker: NativeWalker,
    value: Value<E>,
    region: DefRegionKind,
    answers: Seq<Answer<P, E>>,
    from: nat,
)
    requires
        value.type_index == 76,
        value.content matches Content::Mapping { size: Ok(size), entries, .. } && size > 0
            && unreadable(entries@),
    ensures
        semantics::children(walker, value, region, answers, from).calls.len() == 0,
        semantics::children(walker, value, region, answers, from).result is Err,
{
    if let Content::Mapping { entries, .. } = value.content {
        lemma_unreadable(entries@, 0);
    }
}

} // verus!
