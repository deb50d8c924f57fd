//! The steps of a walk and the meaning of a walk agree.
//!
//! [`reply`] answers a walk's requests out of a [`Value`]. Told those answers one
//! after the other, a walk runs the callbacks and ends as [`crate::semantics`]
//! says.
use vstd::prelude::*;

use crate::error::{Fault, Place};
use crate::kind;
use crate::kind::{DefRegionKind, Phase, FLAG_SEQ_HASH_IGNORE, TYPE_DICT, TYPE_NONE};
use crate::semantics;
use crate::semantics::{Call, Trip};
use crate::step;
use crate::step::{Answer, EventView, Frame, NativeWalker, Node, State, Task};
use crate::tree::{Content, Entry, Field, Value};
use crate::value::{FieldInfo, VisitValue};

verus! {

/// The value as a walk hands it to its callbacks.
pub open spec fn cell<'a, E>(value: &'a Value<E>) -> VisitValue<&'a Value<E>> {
    VisitValue { type_index: value.type_index, handle: value }
}

/// The elements of a sequence as a walk receives them.
pub open spec fn cells<'a, E>(values: Seq<Value<E>>) -> Seq<VisitValue<&'a Value<E>>> {
    Seq::new(values.len(), |i: int| cell(&values[i]))
}

/// What a getter or an iterator returns, as a walk receives it.
pub open spec fn item<'a, E>(result: Result<Value<E>, E>) -> Result<VisitValue<&'a Value<E>>, E> {
    match result {
        Ok(value) => Ok(cell(&value)),
        Err(error) => Err(error),
    }
}

/// A reflected field at position `i` as a walk receives it.
pub open spec fn field_info<E>(field: Field<E>, i: int) -> FieldInfo {
    FieldInfo {
        name: field.name,
        flags: field.flags,
        getter: if field.getter is Some {
            Some(i as usize)
        } else {
            None
        },
    }
}

/// The reflected fields of an object as a walk receives them.
pub open spec fn field_infos<E>(fields: Seq<Field<E>>) -> Seq<FieldInfo> {
    Seq::new(fields.len(), |i: int| field_info(fields[i], i))
}

/// What the iterator of `map` returns for `command` at the entry at `index`.
pub open spec fn iterate<'a, P, E>(
    map: &'a Value<E>,
    index: usize,
    command: i64,
) -> EventView<&'a Value<E>, P, E> {
    if index >= map.entries().len() {
        EventView::Proceed
    } else {
        let entry = map.entries()[index as int];
        EventView::Item(
            if command == 0 {
                item(entry.key)
            } else if command == 1 {
                item(entry.value)
            } else {
                match entry.next {
                    Ok(()) => Ok(cell(map)),
                    Err(error) => Err(error),
                }
            },
        )
    }
}

/// What the getter of the reflected field at position `getter` returns.
pub open spec fn get_field<'a, P, E>(
    object: &'a Value<E>,
    getter: usize,
) -> EventView<&'a Value<E>, P, E> {
    match object.fields() {
        Some(fields) => if getter < fields.len() && fields[getter as int].getter is Some {
            EventView::Item(item(fields[getter as int].getter->0))
        } else {
            EventView::Proceed
        },
        None => EventView::Proceed,
    }
}

/// What a walk that visits values held in memory is told next, where `answer` is
/// what its callback answers if it waits for one.
pub open spec fn reply<'a, P, E>(
    state: State<&'a Value<E>, P, E>,
    answer: Answer<P, E>,
) -> EventView<&'a Value<E>, P, E> {
    let value = state.nodes.last().value.handle;
    match state.task {
        Task::Visit { .. } => EventView::Proceed,
        Task::Enter => EventView::Answered(answer),
        Task::Exit => EventView::Answered(answer),
        Task::Hook => EventView::Hook(value.hook),
        Task::SequenceHeader => EventView::SequenceHeader {
            size: value.header().0,
            null: value.header().1,
        },
        Task::SequenceCells { .. } => EventView::SequenceCells(cells(value.cells())),
        Task::MapSize => EventView::MapSize(value.map_size()),
        Task::MapIter { .. } => EventView::MapIter(
            match value.map_iter() {
                Ok(()) => Ok(value),
                Err(error) => Err(error),
            },
        ),
        Task::Key { iter, index, .. } => iterate(iter, index, 0),
        Task::Value { iter, index, .. } => iterate(iter, index, 1),
        Task::Next { iter, index, .. } => iterate(iter, index, 2),
        Task::Fields => EventView::Fields(
            match value.fields() {
                Some(fields) => Some(field_infos(fields)),
                None => None,
            },
        ),
        Task::Getter { field } => get_field(value, field.getter->0),
        Task::Return(_) => EventView::Proceed,
    }
}

/// A walk and the callbacks that have run so far.
#[verifier::ext_equal]
pub struct Run<'a, P, E> {
    pub state: State<&'a Value<E>, P, E>,
    pub calls: Seq<Call<E>>,
}

impl<'a, P, E> Run<'a, P, E> {
    /// A walk of `value` that has not begun.
    pub open spec fn start(
        walker: NativeWalker,
        value: &'a Value<E>,
        region: DefRegionKind,
    ) -> Self {
        Run { state: State::start(walker, cell(value), region), calls: Seq::empty() }
    }

    /// The callback that the walk waits for.
    pub open spec fn call(self, phase: Phase) -> Call<E> {
        Call {
            phase,
            value: *self.state.nodes.last().value.handle,
            region: self.state.nodes.last().region,
        }
    }

    /// One step, in which a callback answers the next of `answers`.
    pub open spec fn next(self, answers: Seq<Answer<P, E>>) -> Self {
        let calls = match self.state.task {
            Task::Enter => self.calls.push(self.call(Phase::Enter)),
            Task::Exit => self.calls.push(self.call(Phase::Exit)),
            _ => self.calls,
        };
        Run {
            state: self.state.step(reply(self.state, answers[self.calls.len() as int])),
            calls,
        }
    }

    /// `n` steps.
    pub open spec fn after(self, answers: Seq<Answer<P, E>>, n: nat) -> Self
        decreases n,
    {
        if n == 0 {
            self
        } else {
            self.next(answers).after(answers, (n - 1) as nat)
        }
    }

    /// The run once it has made `trip` and hands on its result.
    pub open spec fn done(self, trip: Trip<P, E>) -> Self {
        Run { state: self.state.returning(trip.result), calls: self.calls + trip.calls }
    }
}

/// Steps add up.
proof fn lemma_after_add<'a, P, E>(
    run: Run<'a, P, E>,
    answers: Seq<Answer<P, E>>,
    n: nat,
    m: nat,
)
    ensures
        run.after(answers, n + m) == run.after(answers, n).after(answers, m),
    decreases n,
{
    if n > 0 {
        lemma_after_add(run.next(answers), answers, (n - 1) as nat, m);
    }
}

/// A bound on the steps that the walk of a value takes.
pub open spec fn cost<E>(value: Value<E>) -> nat
    decreases value, 1nat, 0nat,
{
    16 + match value.content {
        Content::Sequence { cells: Some(cells), .. } => cells_cost(cells@, 0),
        Content::Mapping { entries, .. } => entries_cost(entries@, 0),
        Content::Object { fields: Some(fields) } => fields_cost(fields@, 0),
        _ => 0,
    }
}

pub open spec fn cells_cost<E>(cells: Seq<Value<E>>, i: nat) -> nat
    decreases cells, 0nat, cells.len() - i,
{
    if i >= cells.len() {
        0
    } else {
        4 + cost(cells[i as int]) + cells_cost(cells, i + 1)
    }
}

pub open spec fn item_cost<E>(result: Result<Value<E>, E>) -> nat
    decreases result, 0nat, 0nat,
{
    match result {
        Ok(value) => cost(value),
        Err(_) => 0,
    }
}

pub open spec fn entries_cost<E>(entries: Seq<Entry<E>>, i: nat) -> nat
    decreases entries, 0nat, entries.len() - i,
{
    if i >= entries.len() {
        0
    } else {
        16 + item_cost(entries[i as int].key) + item_cost(entries[i as int].value)
            + entries_cost(entries, i + 1)
    }
}

pub open spec fn fields_cost<E>(fields: Seq<Field<E>>, i: nat) -> nat
    decreases fields, 0nat, fields.len() - i,
{
    if i >= fields.len() {
        0
    } else {
        8 + match fields[i as int].getter {
            Some(result) => item_cost(result),
            None => 0,
        } + fields_cost(fields, i + 1)
    }
}

/// An error leaves behind what has not been visited.
proof fn lemma_unwind<'a, P, E>(
    run: Run<'a, P, E>,
    answers: Seq<Answer<P, E>>,
    below: Seq<Frame<&'a Value<E>>>,
    more: Seq<Frame<&'a Value<E>>>,
)
    requires
        run.state.task matches Task::Return(Err(_)),
        run.state.frames == below + more,
        forall|i: int| 0 <= i < more.len() ==> !(#[trigger] more[i] is Node || more[i] is Within),
    ensures
        run.after(answers, more.len()) == (Run {
            state: State { frames: below, ..run.state },
            ..run
        }),
    decreases more.len(),
{
    if more.len() == 0 {
        assert(below + more =~= below);
    } else {
        let next = run.next(answers);
        assert(run.state.frames.last() == more[more.len() - 1]);
        assert(run.state.frames.drop_last() =~= below + more.drop_last());
        lemma_unwind(next, answers, below, more.drop_last());
    }
}

proof fn lemma_cells_cost<E>(values: Seq<Value<E>>, i: nat)
    requires
        i <= values.len(),
    ensures
        cells_cost(values, i) >= values.len() - i,
    decreases values.len() - i,
{
    if i < values.len() {
        lemma_cells_cost(values, i + 1);
    }
}

/// The walk of a value.
#[verifier::rlimit(50)]
proof fn lemma_visit<'a, P, E>(
    run: Run<'a, P, E>,
    answers: Seq<Answer<P, E>>,
    value: &'a Value<E>,
    region: DefRegionKind,
) -> (n: nat)
    requires
        run.state.task == (Task::<&Value<E>, P, E>::Visit { value: cell(value), region }),
        run.state.entries.len() == 0,
        value.wf(),
    ensures
        n <= cost(*value),
        run.after(answers, n) == run.done(
            semantics::visit(run.state.walker, *value, region, answers, run.calls.len()),
        ),
    decreases *value, 2nat, 0nat,
{
    let trip = semantics::visit::<P, E>(
        run.state.walker,
        *value,
        region,
        answers,
        run.calls.len(),
    );
    let run1 = run.next(answers);
    assert(run.after(answers, 1) == run1) by {
        reveal_with_fuel(Run::after, 2);
    }
    if value.type_index == TYPE_NONE {
        assert(run1 =~= run.done(trip));
        1
    } else {
        let run2 = run1.next(answers);
        assert(run.after(answers, 2) == run2) by {
            reveal_with_fuel(Run::after, 3);
        }
        let enter = Call { phase: Phase::Enter, value: *value, region };
        assert(run1.state.nodes.drop_last() =~= run.state.nodes);
        assert(run1.state.frames.drop_last() =~= run.state.frames);
        assert(run1.calls == run.calls);
        assert(run2.calls =~= run.calls + seq![enter]);
        match step::verdict(answers[run.calls.len() as int], value.type_index) {
            Ok(true) => {
                let n = lemma_children(run2, answers, value, region);
                let below = semantics::children::<P, E>(
                    run.state.walker,
                    *value,
                    region,
                    answers,
                    run.calls.len() + 1,
                );
                let run3 = run2.done(below);
                lemma_after_add(run, answers, 2, n);
                assert(run.after(answers, 2 + n) == run3);
                let run4 = run3.next(answers);
                assert(run3.after(answers, 1) == run4) by {
                    reveal_with_fuel(Run::after, 2);
                }
                lemma_after_add(run, answers, 2 + n, 1);
                match below.result {
                    Err(halt) => {
                        assert(run4 =~= run.done(trip));
                        2 + n + 1
                    },
                    Ok(()) => {
                        let run5 = run4.next(answers);
                        assert(run3.after(answers, 2) == run5) by {
                            reveal_with_fuel(Run::after, 3);
                        }
                        lemma_after_add(run, answers, 2 + n, 2);
                        assert(run4.calls.len() == run.calls.len() + 1 + below.calls.len());
                        assert(run5 =~= run.done(trip));
                        2 + n + 2
                    },
                }
            },
            _ => {
                assert(run2 =~= run.done(trip));
                2
            },
        }
    }
}

/// The walk of the children of the innermost value.
proof fn lemma_children<'a, P, E>(
    run: Run<'a, P, E>,
    answers: Seq<Answer<P, E>>,
    value: &'a Value<E>,
    region: DefRegionKind,
) -> (n: nat)
    requires
        run.state == run.state.visit_children_raw(),
        run.state.entries.len() == 0,
        run.state.nodes.len() > 0,
        run.state.nodes.last() == (Node { value: cell(value), region }),
        value.wf(),
    ensures
        n + 8 <= cost(*value),
        run.after(answers, n) == run.done(
            semantics::children(run.state.walker, *value, region, answers, run.calls.len()),
        ),
    decreases *value, 1nat, 0nat,
{
    let trip = semantics::children::<P, E>(
        run.state.walker,
        *value,
        region,
        answers,
        run.calls.len(),
    );
    let run1 = run.next(answers);
    assert(run.after(answers, 1) == run1) by {
        reveal_with_fuel(Run::after, 2);
    }
    if kind::is_sequence(value.type_index) {
        lemma_sequence(run, answers, value, region)
    } else if kind::is_map(value.type_index) {
        lemma_mapping(run, answers, value, region)
    } else if run.state.walker.structural_visit {
        if step::hook_fault(value.type_index, value.hook) is Some || !kind::is_object(
            value.type_index,
        ) {
            assert(run1 =~= run.done(trip));
            1
        } else {
            let n = lemma_reflected(run1, answers, value, region);
            lemma_after_add(run, answers, 1, n);
            assert(run.after(answers, 1 + n) =~= run.done(trip));
            1 + n
        }
    } else if kind::is_object(value.type_index) {
        lemma_reflected(run, answers, value, region)
    } else {
        assert(run =~= run.done(trip));
        0
    }
}

/// The walk of the elements of a sequence.
proof fn lemma_sequence<'a, P, E>(
    run: Run<'a, P, E>,
    answers: Seq<Answer<P, E>>,
    value: &'a Value<E>,
    region: DefRegionKind,
) -> (n: nat)
    requires
        run.state.task is SequenceHeader,
        kind::is_sequence(value.type_index),
        run.state.entries.len() == 0,
        run.state.nodes.len() > 0,
        run.state.nodes.last() == (Node { value: cell(value), region }),
        value.wf(),
    ensures
        n + 8 <= cost(*value),
        run.after(answers, n) == run.done(
            semantics::children(run.state.walker, *value, region, answers, run.calls.len()),
        ),
    decreases *value, 0nat, 0nat,
{
    let trip = semantics::children::<P, E>(
        run.state.walker,
        *value,
        region,
        answers,
        run.calls.len(),
    );
    let run1 = run.next(answers);
    assert(run.after(answers, 1) == run1) by {
        reveal_with_fuel(Run::after, 2);
    }
    let (size, null) = value.header();
    if step::sequence_fault(size, null) is Some || size == 0 {
        assert(run1 =~= run.done(trip));
        1
    } else {
        let run2 = run1.next(answers);
        assert(run.after(answers, 2) == run2) by {
            reveal_with_fuel(Run::after, 3);
        }
        let values = value.cells();
        assert forall|j: int| 0 <= j < values.len() implies (#[trigger] values[j]).wf() by {
            assert(value.content->cells->0@[j].wf());
        }
        let n = lemma_cells(run2, answers, values, 0, run.state.frames, region);
        lemma_after_add(run, answers, 2, n);
        assert(run.after(answers, 2 + n) =~= run.done(trip));
        2 + n
    }
}

proof fn lemma_cells<'a, P, E>(
    run: Run<'a, P, E>,
    answers: Seq<Answer<P, E>>,
    values: Seq<Value<E>>,
    i: nat,
    below: Seq<Frame<&'a Value<E>>>,
    region: DefRegionKind,
) -> (n: nat)
    requires
        i <= values.len(),
        run.state.task == Task::<&'a Value<E>, P, E>::Return(Ok(())),
        run.state.frames == below + step::cell_frames(cells::<E>(values), i),
        run.state.entries.len() == 0,
        run.state.nodes.len() > 0,
        run.state.region() == region,
        forall|j: int| 0 <= j < values.len() ==> (#[trigger] values[j]).wf(),
    ensures
        n <= cells_cost(values, i),
        run.after(answers, n) == (Run {
            state: State { frames: below, ..run.state },
            ..run
        }).done(
            semantics::visit_cells(run.state.walker, values, i, region, answers, run.calls.len()),
        ),
    decreases values, 0nat, values.len() - i,
{
    let bare = Run { state: State { frames: below, ..run.state }, ..run };
    let trip = semantics::visit_cells::<P, E>(
        run.state.walker,
        values,
        i,
        region,
        answers,
        run.calls.len(),
    );
    let all = cells::<E>(values);
    if i == values.len() {
        assert(below + step::cell_frames(all, i) =~= below);
        assert(run =~= bare.done(trip));
        0
    } else {
        let rest = step::cell_frames(all, i + 1);
        let place = Place::SequenceItem { index: i as usize };
        let run1 = run.next(answers);
        assert(run.after(answers, 1) == run1) by {
            reveal_with_fuel(Run::after, 2);
        }
        assert(run.state.frames.last() == (Frame::Item { value: cell(&values[i as int]), place }));
        assert(run.state.frames.drop_last() =~= below + rest);
        let n = lemma_visit(run1, answers, &values[i as int], region);
        let here = semantics::visit::<P, E>(
            run.state.walker,
            values[i as int],
            region,
            answers,
            run.calls.len(),
        );
        let run2 = run1.done(here);
        lemma_after_add(run, answers, 1, n);
        let run3 = run2.next(answers);
        assert(run2.after(answers, 1) == run3) by {
            reveal_with_fuel(Run::after, 2);
        }
        lemma_after_add(run, answers, 1 + n, 1);
        assert(run2.state.frames.drop_last() =~= below + rest);
        assert(run3 =~= (Run {
            state: State { frames: below + rest, ..run.state },
            ..run
        }).done(here.at(place)));
        match here.result {
            Ok(()) => {
                let m = lemma_cells(run3, answers, values, i + 1, below, region);
                lemma_after_add(run, answers, 1 + n + 1, m);
                assert(run.after(answers, 1 + n + 1 + m) =~= bare.done(trip));
                1 + n + 1 + m
            },
            Err(_) => {
                step::lemma_cell_frames(all, i + 1);
                lemma_cells_cost(values, i + 1);
                lemma_unwind(run3, answers, below, rest);
                lemma_after_add(run, answers, 1 + n + 1, rest.len());
                assert(run.after(answers, 1 + n + 1 + rest.len()) =~= bare.done(trip));
                1 + n + 1 + rest.len()
            },
        }
    }
}

/// The walk of the entries of a map or a dict.
proof fn lemma_mapping<'a, P, E>(
    run: Run<'a, P, E>,
    answers: Seq<Answer<P, E>>,
    value: &'a Value<E>,
    region: DefRegionKind,
) -> (n: nat)
    requires
        run.state.task is MapSize,
        kind::is_map(value.type_index),
        run.state.entries.len() == 0,
        run.state.nodes.len() > 0,
        run.state.nodes.last() == (Node { value: cell(value), region }),
        value.wf(),
    ensures
        n + 9 <= cost(*value),
        run.after(answers, n) == run.done(
            semantics::children(run.state.walker, *value, region, answers, run.calls.len()),
        ),
    decreases *value, 0nat, 0nat,
{
    let trip = semantics::children::<P, E>(
        run.state.walker,
        *value,
        region,
        answers,
        run.calls.len(),
    );
    let run1 = run.next(answers);
    assert(run.after(answers, 1) == run1) by {
        reveal_with_fuel(Run::after, 2);
    }
    assert(run.state.entries =~= Seq::empty());
    let size = value.map_size();
    if size is Err || step::map_fault(size->Ok_0) is Some || size->Ok_0 == 0 {
        assert(run1 =~= run.done(trip));
        1
    } else {
        let run2 = run1.next(answers);
        assert(run.after(answers, 2) == run2) by {
            reveal_with_fuel(Run::after, 3);
        }
        let entries = value.entries();
        assert forall|j: int| 0 <= j < entries.len() implies (#[trigger] entries[j]).wf() by {
            assert(value.content->entries@[j].wf());
        }
        if value.map_iter() is Err {
            assert(run2 =~= run.done(trip));
            2
        } else if value.type_index == TYPE_DICT {
            assert(run2.state.entries =~= pairs(entries, 0));
            let read = lemma_read_dict(run2, answers, value, 0);
            lemma_entries_cost(entries, 0);
            lemma_after_add(run, answers, 2, read);
            let run3 = run2.after(answers, read);
            match semantics::dict_error(entries, 0) {
                Some(error) => {
                    assert(run3 =~= run.done(trip));
                    2 + read
                },
                None => {
                    lemma_dict_readable(entries, 0);
                    let n = lemma_dict(run3, answers, entries, 0, run.state.frames, region);
                    lemma_after_add(run, answers, 2 + read, n);
                    assert(run.after(answers, 2 + read + n) =~= run.done(trip));
                    2 + read + n
                },
            }
        } else {
            let n = lemma_map(run2, answers, value, 0, run.state.frames, region);
            lemma_after_add(run, answers, 2, n);
            assert(run.after(answers, 2 + n) =~= run.done(trip));
            2 + n
        }
    }
}

/// The first `n` entries of a dict, where they can be read, as a walk keeps them.
pub open spec fn pairs<'a, E>(entries: Seq<Entry<E>>, n: nat) -> Seq<
    (VisitValue<&'a Value<E>>, VisitValue<&'a Value<E>>),
> {
    Seq::new(n, |i: int| (cell(&entries[i].key->Ok_0), cell(&entries[i].value->Ok_0)))
}

proof fn lemma_entries_cost<E>(entries: Seq<Entry<E>>, i: nat)
    requires
        i <= entries.len(),
    ensures
        entries_cost(entries, i) >= 16 * (entries.len() - i),
    decreases entries.len() - i,
{
    if i < entries.len() {
        lemma_entries_cost(entries, i + 1);
    }
}

pub proof fn lemma_dict_readable<E>(entries: Seq<Entry<E>>, i: nat)
    requires
        semantics::dict_error(entries, i) is None,
        i <= entries.len(),
    ensures
        forall|j: int|
            i <= j < entries.len() ==> (#[trigger] entries[j]).key is Ok && entries[j].value is Ok,
    decreases entries.len() - i,
{
    if i < entries.len() {
        if i + 1 < entries.len() {
            lemma_dict_readable(entries, i + 1);
        }
    }
}

/// All entries of a dict are read before the first is visited.
proof fn lemma_read_dict<'a, P, E>(
    run: Run<'a, P, E>,
    answers: Seq<Answer<P, E>>,
    value: &'a Value<E>,
    i: nat,
) -> (n: nat)
    requires
        run.state.task matches Task::Key { iter, size, index } && iter == value && index == i
            && size == value.entries().len(),
        i < value.entries().len(),
        run.state.nodes.len() > 0,
        run.state.type_index() == TYPE_DICT,
        run.state.entries == pairs(value.entries(), i),
    ensures
        n <= 3 * (value.entries().len() - i),
        run.after(answers, n) == (Run {
            state: match semantics::dict_error(value.entries(), i) {
                Some(error) => run.state.raise(error),
                None => State {
                    frames: run.state.frames + step::entry_frames(
                        pairs(value.entries(), value.entries().len()),
                        0,
                    ),
                    entries: Seq::empty(),
                    task: Task::Return(Ok(())),
                    ..run.state
                },
            },
            ..run
        }),
    decreases value.entries().len() - i,
{
    let entries = value.entries();
    let entry = entries[i as int];
    let run1 = run.next(answers);
    assert(run.after(answers, 1) == run1) by {
        reveal_with_fuel(Run::after, 2);
    }
    if entry.key is Err {
        1
    } else {
        let run2 = run1.next(answers);
        assert(run.after(answers, 2) == run2) by {
            reveal_with_fuel(Run::after, 3);
        }
        if entry.value is Err {
            2
        } else {
            assert(run.state.entries.push(
                (cell(&entry.key->Ok_0), cell(&entry.value->Ok_0)),
            ) =~= pairs(entries, i + 1));
            if i + 1 == entries.len() {
                2
            } else {
                let run3 = run2.next(answers);
                assert(run.after(answers, 3) == run3) by {
                    reveal_with_fuel(Run::after, 4);
                }
                if entry.next is Err {
                    3
                } else {
                    let n = lemma_read_dict(run3, answers, value, i + 1);
                    lemma_after_add(run, answers, 3, n);
                    3 + n
                }
            }
        }
    }
}

/// A child that waits on the frames is visited.
proof fn lemma_item<'a, P, E>(
    run: Run<'a, P, E>,
    answers: Seq<Answer<P, E>>,
    value: &'a Value<E>,
    place: Place,
    below: Seq<Frame<&'a Value<E>>>,
    region: DefRegionKind,
) -> (n: nat)
    requires
        run.state.task == Task::<&'a Value<E>, P, E>::Return(Ok(())),
        run.state.frames == below.push(Frame::Item { value: cell(value), place }),
        run.state.entries.len() == 0,
        run.state.nodes.len() > 0,
        run.state.region() == region,
        value.wf(),
    ensures
        n <= cost(*value) + 2,
        run.after(answers, n) == (Run {
            state: State { frames: below, ..run.state },
            ..run
        }).done(
            semantics::visit(run.state.walker, *value, region, answers, run.calls.len()).at(place),
        ),
    decreases *value, 4nat, 0nat,
{
    let run1 = run.next(answers);
    assert(run.after(answers, 1) == run1) by {
        reveal_with_fuel(Run::after, 2);
    }
    assert(run.state.frames.drop_last() =~= below);
    let n = lemma_within(run1, answers, value, place, below, region);
    lemma_after_add(run, answers, 1, n);
    1 + n
}

/// A child is visited.
proof fn lemma_within<'a, P, E>(
    run: Run<'a, P, E>,
    answers: Seq<Answer<P, E>>,
    value: &'a Value<E>,
    place: Place,
    below: Seq<Frame<&'a Value<E>>>,
    region: DefRegionKind,
) -> (n: nat)
    requires
        run.state.task == (Task::<&Value<E>, P, E>::Visit { value: cell(value), region }),
        run.state.frames == below.push(Frame::Within { place }),
        run.state.entries.len() == 0,
        value.wf(),
    ensures
        n <= cost(*value) + 1,
        run.after(answers, n) == (Run {
            state: State { frames: below, ..run.state },
            ..run
        }).done(
            semantics::visit(run.state.walker, *value, region, answers, run.calls.len()).at(place),
        ),
    decreases *value, 3nat, 0nat,
{
    let n = lemma_visit(run, answers, value, region);
    let here = semantics::visit::<P, E>(
        run.state.walker,
        *value,
        region,
        answers,
        run.calls.len(),
    );
    let run1 = run.done(here);
    let run2 = run1.next(answers);
    assert(run1.after(answers, 1) == run2) by {
        reveal_with_fuel(Run::after, 2);
    }
    lemma_after_add(run, answers, n, 1);
    assert(run1.state.frames.drop_last() =~= below);
    n + 1
}

proof fn lemma_dict<'a, P, E>(
    run: Run<'a, P, E>,
    answers: Seq<Answer<P, E>>,
    entries: Seq<Entry<E>>,
    i: nat,
    below: Seq<Frame<&'a Value<E>>>,
    region: DefRegionKind,
) -> (n: nat)
    requires
        i <= entries.len(),
        run.state.task == Task::<&'a Value<E>, P, E>::Return(Ok(())),
        run.state.frames == below + step::entry_frames(pairs(entries, entries.len()), i),
        run.state.entries.len() == 0,
        run.state.nodes.len() > 0,
        run.state.region() == region,
        forall|j: int| 0 <= j < entries.len() ==> (#[trigger] entries[j]).wf(),
        forall|j: int|
            0 <= j < entries.len() ==> (#[trigger] entries[j]).key is Ok && entries[j].value is Ok,
    ensures
        n + 8 * (entries.len() - i) <= entries_cost(entries, i),
        run.after(answers, n) == (Run {
            state: State { frames: below, ..run.state },
            ..run
        }).done(
            semantics::visit_dict(run.state.walker, entries, i, region, answers, run.calls.len()),
        ),
    decreases entries, 0nat, entries.len() - i,
{
    let bare = Run { state: State { frames: below, ..run.state }, ..run };
    let trip = semantics::visit_dict::<P, E>(
        run.state.walker,
        entries,
        i,
        region,
        answers,
        run.calls.len(),
    );
    let all = pairs::<E>(entries, entries.len());
    if i == entries.len() {
        assert(below + step::entry_frames(all, i) =~= below);
        assert(run =~= bare.done(trip));
        0
    } else {
        let entry = entries[i as int];
        assert(entry.wf());
        let key = entry.key->Ok_0;
        let value = entry.value->Ok_0;
        assert(item_cost(entry.key) == cost(key));
        assert(item_cost(entry.value) == cost(value));
        let index = i as usize;
        let rest = step::entry_frames(all, i + 1);
        let last = Frame::Item { value: cell(&value), place: Place::DictValue { index } };
        assert(run.state.frames =~= (below + rest).push(last).push(
            Frame::Item { value: cell(&key), place: Place::DictKey { index } },
        ));
        let n = lemma_item(
            run,
            answers,
            &key,
            Place::DictKey { index },
            (below + rest).push(last),
            region,
        );
        let first = semantics::visit::<P, E>(
            run.state.walker,
            key,
            region,
            answers,
            run.calls.len(),
        ).at(Place::DictKey { index });
        let run1 = run.after(answers, n);
        step::lemma_entry_frames(all, i + 1);
        lemma_entries_cost(entries, i + 1);
        if first.result is Err {
            assert((below + rest).push(last) =~= below + rest.push(last));
            lemma_unwind(run1, answers, below, rest.push(last));
            lemma_after_add(run, answers, n, rest.push(last).len());
            assert(run.after(answers, n + rest.push(last).len()) =~= bare.done(trip));
            n + rest.push(last).len()
        } else {
            let m = lemma_item(
                run1,
                answers,
                &value,
                Place::DictValue { index },
                below + rest,
                region,
            );
            lemma_after_add(run, answers, n, m);
            let run2 = run1.after(answers, m);
            let second = semantics::visit::<P, E>(
                run.state.walker,
                value,
                region,
                answers,
                run.calls.len() + first.calls.len(),
            ).at(Place::DictValue { index });
            if second.result is Err {
                lemma_unwind(run2, answers, below, rest);
                lemma_after_add(run, answers, n + m, rest.len());
                assert(run.after(answers, n + m + rest.len()) =~= bare.done(trip));
                n + m + rest.len()
            } else {
                let k = lemma_dict(run2, answers, entries, i + 1, below, region);
                lemma_after_add(run, answers, n + m, k);
                assert(run.after(answers, n + m + k) =~= bare.done(trip));
                n + m + k
            }
        }
    }
}

/// A map is read and visited entry by entry.
#[verifier::rlimit(50)]
proof fn lemma_map<'a, P, E>(
    run: Run<'a, P, E>,
    answers: Seq<Answer<P, E>>,
    map: &'a Value<E>,
    i: nat,
    below: Seq<Frame<&'a Value<E>>>,
    region: DefRegionKind,
) -> (n: nat)
    requires
        run.state.task matches Task::Key { iter, size, index } && iter == map && index == i && size
            == map.entries().len(),
        i < map.entries().len(),
        run.state.frames == below,
        run.state.entries.len() == 0,
        run.state.nodes.len() > 0,
        run.state.region() == region,
        run.state.type_index() != TYPE_DICT,
        forall|j: int| 0 <= j < map.entries().len() ==> (#[trigger] map.entries()[j]).wf(),
    ensures
        n <= entries_cost(map.entries(), i),
        run.after(answers, n) == run.done(
            semantics::visit_map(
                run.state.walker,
                map.entries(),
                i,
                region,
                answers,
                run.calls.len(),
            ),
        ),
    decreases map.entries(), 0nat, map.entries().len() - i,
{
    let entries = map.entries();
    let trip = semantics::visit_map::<P, E>(
        run.state.walker,
        entries,
        i,
        region,
        answers,
        run.calls.len(),
    );
    let entry = entries[i as int];
    assert(entry.wf());
    assert(run.state.entries =~= Seq::empty());
    let run1 = run.next(answers);
    assert(run.after(answers, 1) == run1) by {
        reveal_with_fuel(Run::after, 2);
    }
    if entry.key is Err {
        assert(run1 =~= run.done(trip));
        return 1;
    }
    let run2 = run1.next(answers);
    assert(run.after(answers, 2) == run2) by {
        reveal_with_fuel(Run::after, 3);
    }
    if entry.value is Err {
        assert(run2 =~= run.done(trip));
        return 2;
    }
    let key = entry.key->Ok_0;
    let value = entry.value->Ok_0;
    assert(item_cost(entry.key) == cost(key));
    assert(item_cost(entry.value) == cost(value));
    let index = i as usize;
    let size = entries.len() as usize;
    let next = Frame::MapNext { iter: map, size, index };
    let last = Frame::Item { value: cell(&value), place: Place::MapValue { index } };
    let n = lemma_within(
        run2,
        answers,
        &key,
        Place::MapKey { index },
        below.push(next).push(last),
        region,
    );
    lemma_after_add(run, answers, 2, n);
    let run3 = run2.after(answers, n);
    let first = semantics::visit::<P, E>(
        run.state.walker,
        key,
        region,
        answers,
        run.calls.len(),
    ).at(Place::MapKey { index });
    if first.result is Err {
        let more = seq![next, last];
        assert(below.push(next).push(last) =~= below + more);
        lemma_unwind(run3, answers, below, more);
        lemma_after_add(run, answers, 2 + n, 2);
        assert(run.after(answers, 2 + n + 2) =~= run.done(trip));
        return 2 + n + 2;
    }
    let m = lemma_item(
        run3,
        answers,
        &value,
        Place::MapValue { index },
        below.push(next),
        region,
    );
    lemma_after_add(run, answers, 2 + n, m);
    let run4 = run3.after(answers, m);
    let second = semantics::visit::<P, E>(
        run.state.walker,
        value,
        region,
        answers,
        run.calls.len() + first.calls.len(),
    ).at(Place::MapValue { index });
    let run5 = run4.next(answers);
    assert(run4.after(answers, 1) == run5) by {
        reveal_with_fuel(Run::after, 2);
    }
    lemma_after_add(run, answers, 2 + n + m, 1);
    assert(run4.state.frames.drop_last() =~= below);
    if second.result is Err || i + 1 == entries.len() {
        assert(run5 =~= run.done(trip));
        return 2 + n + m + 1;
    }
    let run6 = run5.next(answers);
    assert(run4.after(answers, 2) == run6) by {
        reveal_with_fuel(Run::after, 3);
    }
    lemma_after_add(run, answers, 2 + n + m, 2);
    if entry.next is Err {
        assert(run6 =~= run.done(trip));
        return 2 + n + m + 2;
    }
    let k = lemma_map(run6, answers, map, i + 1, below, region);
    lemma_after_add(run, answers, 2 + n + m + 2, k);
    assert(run.after(answers, 2 + n + m + 2 + k) =~= run.done(trip));
    2 + n + m + 2 + k
}

proof fn lemma_fields_cost<E>(fields: Seq<Field<E>>, i: nat)
    requires
        i <= fields.len(),
    ensures
        fields_cost(fields, i) >= fields.len() - i,
    decreases fields.len() - i,
{
    if i < fields.len() {
        lemma_fields_cost(fields, i + 1);
    }
}

/// The walk of the reflected fields of an object.
proof fn lemma_reflected<'a, P, E>(
    run: Run<'a, P, E>,
    answers: Seq<Answer<P, E>>,
    value: &'a Value<E>,
    region: DefRegionKind,
) -> (n: nat)
    requires
        run.state.task is Fields,
        run.state.entries.len() == 0,
        run.state.nodes.len() > 0,
        run.state.nodes.last() == (Node { value: cell(value), region }),
        value.wf(),
    ensures
        n + 9 <= cost(*value),
        run.after(answers, n) == run.done(
            match value.fields() {
                Some(fields) => semantics::visit_fields(
                    run.state.walker,
                    fields,
                    0,
                    region,
                    answers,
                    run.calls.len(),
                ),
                None => Trip::fails(Fault::UnregisteredType { type_index: value.type_index }),
            },
        ),
    decreases *value, 0nat, 0nat,
{
    let run1 = run.next(answers);
    assert(run.after(answers, 1) == run1) by {
        reveal_with_fuel(Run::after, 2);
    }
    match value.fields() {
        None => {
            assert(run1 =~= run.done(
                Trip::fails(Fault::UnregisteredType { type_index: value.type_index }),
            ));
            1
        },
        Some(fields) => {
            assert(fields.len() == value.content->Object_fields->0.len());
            assert forall|j: int| 0 <= j < fields.len() implies (#[trigger] fields[j]).wf() by {
                assert(value.content->Object_fields->0@[j].wf());
            }
            let n = lemma_fields(run1, answers, value, fields, 0, run.state.frames, region);
            lemma_after_add(run, answers, 1, n);
            1 + n
        },
    }
}

#[verifier::rlimit(50)]
proof fn lemma_fields<'a, P, E>(
    run: Run<'a, P, E>,
    answers: Seq<Answer<P, E>>,
    object: &'a Value<E>,
    fields: Seq<Field<E>>,
    i: nat,
    below: Seq<Frame<&'a Value<E>>>,
    region: DefRegionKind,
) -> (n: nat)
    requires
        i <= fields.len() <= usize::MAX,
        object.fields() == Some(fields),
        run.state.task == Task::<&'a Value<E>, P, E>::Return(Ok(())),
        run.state.frames == below + step::field_frames::<&'a Value<E>>(field_infos(fields), i),
        run.state.entries.len() == 0,
        run.state.nodes.len() > 0,
        run.state.nodes.last() == (Node { value: cell(object), region }),
        forall|j: int| 0 <= j < fields.len() ==> (#[trigger] fields[j]).wf(),
    ensures
        n <= fields_cost(fields, i),
        run.after(answers, n) == (Run {
            state: State { frames: below, ..run.state },
            ..run
        }).done(
            semantics::visit_fields(run.state.walker, fields, i, region, answers, run.calls.len()),
        ),
    decreases fields, 0nat, fields.len() - i,
{
    let bare = Run { state: State { frames: below, ..run.state }, ..run };
    let trip = semantics::visit_fields::<P, E>(
        run.state.walker,
        fields,
        i,
        region,
        answers,
        run.calls.len(),
    );
    let infos = field_infos(fields);
    if i == fields.len() {
        assert(below + step::field_frames::<&'a Value<E>>(infos, i) =~= below);
        assert(run =~= bare.done(trip));
        0
    } else {
        let rest = step::field_frames::<&'a Value<E>>(infos, i + 1);
        let field = fields[i as int];
        let info = infos[i as int];
        assert(run.state.frames =~= (below + rest).push(Frame::Field { field: info }));
        let n = lemma_field(run, answers, object, fields, i, below + rest, region);
        let here = semantics::visit_field::<P, E>(
            run.state.walker,
            field,
            region,
            answers,
            run.calls.len(),
        );
        let run1 = run.after(answers, n);
        match here.result {
            Ok(()) => {
                let m = lemma_fields(run1, answers, object, fields, i + 1, below, region);
                lemma_after_add(run, answers, n, m);
                assert(run.after(answers, n + m) =~= bare.done(trip));
                n + m
            },
            Err(_) => {
                step::lemma_field_frames::<&'a Value<E>>(infos, i + 1);
                lemma_fields_cost(fields, i + 1);
                lemma_unwind(run1, answers, below, rest);
                lemma_after_add(run, answers, n, rest.len());
                assert(run.after(answers, n + rest.len()) =~= bare.done(trip));
                n + rest.len()
            },
        }
    }
}

/// The walk of one reflected field.
proof fn lemma_field<'a, P, E>(
    run: Run<'a, P, E>,
    answers: Seq<Answer<P, E>>,
    object: &'a Value<E>,
    fields: Seq<Field<E>>,
    i: nat,
    below: Seq<Frame<&'a Value<E>>>,
    region: DefRegionKind,
) -> (n: nat)
    requires
        i < fields.len() <= usize::MAX,
        object.fields() == Some(fields),
        run.state.task == Task::<&'a Value<E>, P, E>::Return(Ok(())),
        run.state.frames == below.push(
            Frame::Field { field: field_info(fields[i as int], i as int) },
        ),
        run.state.entries.len() == 0,
        run.state.nodes.len() > 0,
        run.state.nodes.last() == (Node { value: cell(object), region }),
        fields[i as int].wf(),
    ensures
        n <= 8 + match fields[i as int].getter {
            Some(result) => item_cost(result),
            None => 0,
        },
        run.after(answers, n) == (Run {
            state: State { frames: below, ..run.state },
            ..run
        }).done(
            semantics::visit_field(
                run.state.walker,
                fields[i as int],
                region,
                answers,
                run.calls.len(),
            ),
        ),
    decreases fields[i as int], 5nat, 0nat,
{
    let bare = Run { state: State { frames: below, ..run.state }, ..run };
    let field = fields[i as int];
    let place = Place::Field { name: field.name };
    let trip = semantics::visit_field::<P, E>(
        run.state.walker,
        field,
        region,
        answers,
        run.calls.len(),
    );
    let run1 = run.next(answers);
    assert(run.after(answers, 1) == run1) by {
        reveal_with_fuel(Run::after, 2);
    }
    assert(run.state.frames.drop_last() =~= below);
    if kind::has_flag(field.flags, FLAG_SEQ_HASH_IGNORE) || field.getter is None {
        assert(run1 =~= bare.done(trip));
        1
    } else {
        let run2 = run1.next(answers);
        assert(run.after(answers, 2) == run2) by {
            reveal_with_fuel(Run::after, 3);
        }
        match field.getter->0 {
            Err(error) => {
                assert(run2 =~= bare.done(trip));
                2
            },
            Ok(child) => {
                assert(item_cost(field.getter->0) == cost(child));
                let n = lemma_within(
                    run2,
                    answers,
                    &child,
                    place,
                    below,
                    kind::region_of_field(field.flags, region),
                );
                lemma_after_add(run, answers, 2, n);
                assert(run.after(answers, 2 + n) =~= bare.done(trip));
                2 + n
            },
        }
    }
}

/// A walk that has ended stays as it is.
proof fn lemma_finished<'a, P, E>(run: Run<'a, P, E>, answers: Seq<Answer<P, E>>, n: nat)
    requires
        run.state.finished(),
    ensures
        run.after(answers, n) == run,
    decreases n,
{
    if n > 0 {
        assert(run.next(answers) == run);
        lemma_finished(run, answers, (n - 1) as nat);
    }
}

/// Callbacks that have run stay on record.
proof fn lemma_calls_grow<'a, P, E>(run: Run<'a, P, E>, answers: Seq<Answer<P, E>>, n: nat)
    ensures
        run.after(answers, n).calls.len() >= run.calls.len(),
    decreases n,
{
    if n > 0 {
        lemma_calls_grow(run.next(answers), answers, (n - 1) as nat);
    }
}

/// What a walk has done so far does not depend on answers that are still to come.
pub proof fn lemma_later_answers<'a, P, E>(
    run: Run<'a, P, E>,
    answers: Seq<Answer<P, E>>,
    answer: Answer<P, E>,
    n: nat,
)
    requires
        run.after(answers, n).calls.len() <= answers.len(),
    ensures
        run.after(answers.push(answer), n) == run.after(answers, n),
    decreases n,
{
    if n > 0 {
        let next = run.next(answers);
        lemma_calls_grow(next, answers, (n - 1) as nat);
        assert(run.next(answers.push(answer)) == next);
        lemma_later_answers(next, answers, answer, (n - 1) as nat);
    }
}

/// One more step.
pub proof fn lemma_one_more<'a, P, E>(run: Run<'a, P, E>, answers: Seq<Answer<P, E>>, n: nat)
    ensures
        run.after(answers, n + 1) == run.after(answers, n).next(answers),
{
    lemma_after_add(run, answers, n, 1);
    reveal_with_fuel(Run::after, 2);
}

/// A walk of a value held in memory ends after at most [`cost`] steps, whatever its
/// callbacks answer. It has then run the callbacks that [`semantics::visit`] names,
/// in that order, and its result is the one that [`semantics::visit`] gives.
pub proof fn law_walk_agrees<'a, P, E>(
    walker: NativeWalker,
    value: &'a Value<E>,
    region: DefRegionKind,
    answers: Seq<Answer<P, E>>,
) -> (n: nat)
    requires
        value.wf(),
    ensures
        n <= cost(*value),
        ({
            let end = Run::<'a, P, E>::start(walker, value, region).after(answers, n);
            let trip = semantics::visit(walker, *value, region, answers, 0);
            &&& end.state.finished()
            &&& end.state.task == Task::<&'a Value<E>, P, E>::Return(trip.result)
            &&& end.calls == trip.calls
        }),
{
    let run = Run::<'a, P, E>::start(walker, value, region);
    let n = lemma_visit(run, answers, value, region);
    let trip = semantics::visit::<P, E>(walker, *value, region, answers, 0);
    assert(run.calls + trip.calls =~= trip.calls);
    n
}

/// A walk that has not ended has used fewer than [`cost`] steps.
pub proof fn lemma_within_cost<'a, P, E>(
    walker: NativeWalker,
    value: &'a Value<E>,
    region: DefRegionKind,
    answers: Seq<Answer<P, E>>,
    n: nat,
)
    requires
        value.wf(),
        !Run::<'a, P, E>::start(walker, value, region).after(answers, n).state.finished(),
    ensures
        n < cost(*value),
{
    let run = Run::<'a, P, E>::start(walker, value, region);
    let end = law_walk_agrees(walker, value, region, answers);
    if end <= n {
        lemma_after_add(run, answers, end, (n - end) as nat);
        lemma_finished(run.after(answers, end), answers, (n - end) as nat);
    }
}

/// However many steps a walk that has ended took, it ended as the meaning says.
pub proof fn lemma_end_agrees<'a, P, E>(
    walker: NativeWalker,
    value: &'a Value<E>,
    region: DefRegionKind,
    answers: Seq<Answer<P, E>>,
    n: nat,
)
    requires
        value.wf(),
        Run::<'a, P, E>::start(walker, value, region).after(answers, n).state.finished(),
    ensures
        ({
            let end = Run::<'a, P, E>::start(walker, value, region).after(answers, n);
            let trip = semantics::visit(walker, *value, region, answers, 0);
            &&& end.state.task == Task::<&'a Value<E>, P, E>::Return(trip.result)
            &&& end.calls == trip.calls
        }),
{
    let run = Run::<'a, P, E>::start(walker, value, region);
    let end = law_walk_agrees(walker, value, region, answers);
    if end <= n {
        lemma_after_add(run, answers, end, (n - end) as nat);
        lemma_finished(run.after(answers, end), answers, (n - end) as nat);
    } else {
        lemma_after_add(run, answers, n, (end - n) as nat);
        lemma_finished(run.after(answers, n), answers, (end - n) as nat);
    }
}

} // verus!
