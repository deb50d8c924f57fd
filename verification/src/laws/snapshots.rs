//! A list or a dict is read once: what its callbacks do to it afterwards changes
//! nothing.
//!
//! These laws speak of the transition system, and of whatever a runtime may tell it
//! once the elements are read.
use vstd::prelude::*;

use crate::error::Place;
use crate::kind::DefRegionKind;
use crate::step;
use crate::step::{EventView, Frame, Node, Request, State, Task};
use crate::value::VisitValue;
use crate::walker;

verus! {

/// The state of a walk inside which the walk `local` is made: below it are the values
/// `nodes`, and `frames` is what is left to do behind it.
pub open spec fn inside<H, P, E>(
    local: State<H, P, E>,
    nodes: Seq<Node<H>>,
    frames: Seq<Frame<H>>,
) -> State<H, P, E> {
    State { nodes: nodes + local.nodes, frames: frames + local.frames, ..local }
}

/// The walk of a child is a walk of its own: until it ends, it takes its steps as if
/// nothing were around it, and leaves what is around it alone.
pub proof fn law_child_walk_is_its_own<H, P, E>(
    local: State<H, P, E>,
    nodes: Seq<Node<H>>,
    frames: Seq<Frame<H>>,
    event: EventView<H, P, E>,
)
    requires
        local.wf(),
        !local.finished(),
    ensures
        inside(local, nodes, frames).step(event) == inside(local.step(event), nodes, frames),
        local.step(event).wf(),
{
    walker::lemma_step_keeps_wf(local, event);
    let outer = inside(local, nodes, frames);
    if local.frames.len() > 0 {
        walker::lemma_node_below(local.frames);
        assert(outer.nodes.last() == local.nodes.last());
        assert(outer.frames.last() == local.frames.last());
        assert(outer.nodes.drop_last() =~= nodes + local.nodes.drop_last());
        assert(outer.frames.drop_last() =~= frames + local.frames.drop_last());
    }
    assert(outer.step(event) =~= inside(local.step(event), nodes, frames));
}

/// The state of a walk once it was told `events`, one after the other.
pub open spec fn after<H, P, E>(
    state: State<H, P, E>,
    events: Seq<EventView<H, P, E>>,
) -> State<H, P, E>
    decreases events.len(),
{
    if events.len() == 0 {
        state
    } else {
        after(state.step(events[0]), events.drop_first())
    }
}

/// The children of the value at `depth` whose visit begins while a walk is told
/// `events`, in order, each with its definition region. The value is the innermost of
/// `depth` values that are being visited; the list ends where its visit ends.
pub open spec fn children_begun<H, P, E>(
    state: State<H, P, E>,
    events: Seq<EventView<H, P, E>>,
    depth: nat,
) -> Seq<Node<H>>
    decreases events.len(),
{
    if events.len() == 0 || state.nodes.len() < depth {
        Seq::empty()
    } else {
        let rest = children_begun(state.step(events[0]), events.drop_first(), depth);
        match state.task {
            Task::Visit { value, region } => if state.nodes.len() == depth
                && events[0] is Proceed {
                seq![Node { value, region }] + rest
            } else {
                rest
            },
            _ => rest,
        }
    }
}

/// Whether a walk that is told `events` asks for the exit callback of the value at
/// `depth`.
pub open spec fn exit_asked<H, P, E>(
    state: State<H, P, E>,
    events: Seq<EventView<H, P, E>>,
    depth: nat,
) -> bool
    decreases events.len(),
{
    if state.nodes.len() < depth {
        false
    } else if state.nodes.len() == depth && state.task is Exit {
        true
    } else {
        events.len() > 0 && exit_asked(state.step(events[0]), events.drop_first(), depth)
    }
}

/// Whether the visit of the value at `depth` ends well while a walk is told `events`.
pub open spec fn left_well<H, P, E>(
    state: State<H, P, E>,
    events: Seq<EventView<H, P, E>>,
    depth: nat,
) -> bool
    decreases events.len(),
{
    if state.nodes.len() < depth {
        state.task == Task::<H, P, E>::Return(Ok(()))
    } else {
        events.len() > 0 && left_well(state.step(events[0]), events.drop_first(), depth)
    }
}

/// Whether the children that a walk visits at `depth` are `children`: in this order
/// and no others, all of them if the walk comes to the exit callback or ends the visit
/// well, else as far as it got before it halted or `events` ended.
pub open spec fn visits<H, P, E>(
    state: State<H, P, E>,
    events: Seq<EventView<H, P, E>>,
    depth: nat,
    children: Seq<Node<H>>,
) -> bool {
    let begun = children_begun(state, events, depth);
    &&& begun.is_prefix_of(children)
    &&& exit_asked(state, events, depth) ==> begun == children
    &&& left_well(state, events, depth) ==> begun == children
}

/// A value whose visit begins is asked for at its enter callback, unless it is none.
pub proof fn law_begun_value_is_entered<H, P, E>(
    state: State<H, P, E>,
    value: VisitValue<H>,
    region: DefRegionKind,
)
    requires
        state.task == (Task::<H, P, E>::Visit { value, region }),
        value.type_index != 0,
    ensures
        state.step(EventView::Proceed).request() == (Request::Enter { value: &value, region }),
{
}

/// The children that stand on frames, next one first.
pub open spec fn waiting<H>(frames: Seq<Frame<H>>, region: DefRegionKind) -> Seq<Node<H>>
    decreases frames.len(),
{
    if frames.len() == 0 {
        Seq::empty()
    } else {
        match frames.last() {
            Frame::Item { value, .. } => seq![Node { value, region }] + waiting(
                frames.drop_last(),
                region,
            ),
            _ => waiting(frames.drop_last(), region),
        }
    }
}

/// Whether `frames` is what is left to do at a value: children on `pending`, above the
/// value's own frame.
spec fn at_value<H>(base: Seq<Frame<H>>, pending: Seq<Frame<H>>) -> bool {
    &&& base.len() > 0
    &&& base.last() is Node
    &&& forall|i: int| 0 <= i < pending.len() ==> #[trigger] pending[i] is Item
}

/// A walk that waits for a value's exit callback visits none of its children.
proof fn lemma_exiting<H, P, E>(
    state: State<H, P, E>,
    events: Seq<EventView<H, P, E>>,
    depth: nat,
)
    requires
        state.nodes.len() == depth,
        depth > 0,
        state.task is Exit,
    ensures
        visits(state, events, depth, Seq::empty()),
    decreases events.len(),
{
    if events.len() > 0 {
        let next = state.step(events[0]);
        if events[0] is Answered {
            assert(next.nodes.len() < depth);
            assert(children_begun(next, events.drop_first(), depth) =~= Seq::empty());
        } else {
            lemma_exiting(state, events.drop_first(), depth);
        }
    }
}

/// A walk that halts visits no more children.
proof fn lemma_halting<H, P, E>(
    state: State<H, P, E>,
    events: Seq<EventView<H, P, E>>,
    base: Seq<Frame<H>>,
    pending: Seq<Frame<H>>,
)
    requires
        state.nodes.len() > 0,
        state.frames == base + pending,
        at_value(base, pending),
        state.task matches Task::Return(Err(_)),
    ensures
        children_begun(state, events, state.nodes.len()) == Seq::<Node<H>>::empty(),
        !exit_asked(state, events, state.nodes.len()),
        !left_well(state, events, state.nodes.len()),
    decreases events.len(),
{
    if events.len() > 0 {
        let next = state.step(events[0]);
        let depth = state.nodes.len();
        if !(events[0] is Proceed) {
            lemma_halting(state, events.drop_first(), base, pending);
        } else if pending.len() == 0 {
            assert(base + pending =~= base);
            assert(next.nodes.len() < depth);
            assert(next.task matches Task::Return(Err(_)));
            assert(children_begun(next, events.drop_first(), depth) =~= Seq::empty());
            assert(!exit_asked(next, events.drop_first(), depth));
            assert(!left_well(next, events.drop_first(), depth));
        } else {
            assert(state.frames.last() == pending[pending.len() - 1]);
            assert(state.frames.drop_last() =~= base + pending.drop_last());
            lemma_halting(next, events.drop_first(), base, pending.drop_last());
        }
    }
}

/// Between two children: those on `pending` are still to be visited.
proof fn lemma_between<H, P, E>(
    state: State<H, P, E>,
    events: Seq<EventView<H, P, E>>,
    base: Seq<Frame<H>>,
    pending: Seq<Frame<H>>,
)
    requires
        state.nodes.len() > 0,
        state.frames == base + pending,
        at_value(base, pending),
        state.task == Task::<H, P, E>::Return(Ok(())),
    ensures
        visits(state, events, state.nodes.len(), waiting(pending, state.region())),
    decreases events.len(), 0nat,
{
    if events.len() > 0 {
        let next = state.step(events[0]);
        let depth = state.nodes.len();
        if !(events[0] is Proceed) {
            lemma_between(state, events.drop_first(), base, pending);
        } else if pending.len() == 0 {
            assert(base + pending =~= base);
            lemma_exiting(next, events.drop_first(), depth);
        } else {
            assert(state.frames.last() == pending[pending.len() - 1]);
            let rest = pending.drop_last();
            if let Frame::Item { value, place } = pending.last() {
                let region = state.region();
                let local = State {
                    nodes: Seq::empty(),
                    frames: Seq::empty(),
                    task: Task::Visit { value, region },
                    ..state
                };
                assert(state.frames.drop_last() =~= base + rest);
                assert(next =~= inside(
                    local,
                    state.nodes,
                    (base + rest).push(Frame::Within { place }),
                ));
                lemma_in_child(local, events.drop_first(), state.nodes, base, rest, place);
            }
        }
    }
}

/// Inside the visit of a child, whose own walk is `local`.
proof fn lemma_in_child<H, P, E>(
    local: State<H, P, E>,
    events: Seq<EventView<H, P, E>>,
    nodes: Seq<Node<H>>,
    base: Seq<Frame<H>>,
    pending: Seq<Frame<H>>,
    place: Place,
)
    requires
        local.wf(),
        nodes.len() > 0,
        at_value(base, pending),
    ensures
        ({
            let state = inside(local, nodes, (base + pending).push(Frame::Within { place }));
            let rest = waiting(pending, nodes.last().region);
            visits(
                state,
                events,
                nodes.len(),
                match local.task {
                    Task::Visit { value, region } => if local.nodes.len() == 0 {
                        seq![Node { value, region }] + rest
                    } else {
                        rest
                    },
                    _ => rest,
                },
            )
        }),
    decreases events.len(), 1nat,
{
    let frames = (base + pending).push(Frame::Within { place });
    let state = inside(local, nodes, frames);
    let rest = waiting(pending, nodes.last().region);
    if local.frames.len() > 0 {
        walker::lemma_node_below(local.frames);
    }
    if events.len() > 0 {
        let event = events[0];
        let later = events.drop_first();
        let next = state.step(event);
        if local.finished() {
            assert(state.frames =~= frames);
            assert(state.nodes =~= nodes);
            assert(frames.drop_last() =~= base + pending);
            if let Task::Return(result) = local.task {
                if !(event is Proceed) {
                    lemma_in_child(local, later, nodes, base, pending, place);
                } else if result is Ok {
                    lemma_between(next, later, base, pending);
                } else {
                    lemma_halting(next, later, base, pending);
                }
            }
        } else {
            law_child_walk_is_its_own(local, nodes, frames, event);
            lemma_in_child(local.step(event), later, nodes, base, pending, place);
        }
    }
}

/// The elements of a sequence, all in the region of the sequence.
pub open spec fn element_nodes<H>(
    cells: Seq<VisitValue<H>>,
    region: DefRegionKind,
) -> Seq<Node<H>> {
    Seq::new(cells.len(), |i: int| Node { value: cells[i], region })
}

proof fn lemma_waiting_cells<H>(cells: Seq<VisitValue<H>>, from: nat, region: DefRegionKind)
    requires
        from <= cells.len(),
    ensures
        waiting(step::cell_frames(cells, from), region) == element_nodes(
            cells.skip(from as int),
            region,
        ),
    decreases cells.len() - from,
{
    if from < cells.len() {
        lemma_waiting_cells(cells, from + 1, region);
        let frames = step::cell_frames(cells, from);
        assert(frames.drop_last() =~= step::cell_frames(cells, from + 1));
        assert(cells.skip(from as int) =~= seq![cells[from as int]] + cells.skip(from as int + 1));
    }
    assert(waiting(step::cell_frames(cells, from), region) =~= element_nodes(
        cells.skip(from as int),
        region,
    ));
}

/// Once the elements of a list are read, they are what is visited, in order and in the
/// region of the list. It makes no difference what the walk is told afterwards: neither
/// what the callbacks answer nor what became of the list. The walk asks for elements
/// that it owns. An array, which cannot change, is visited likewise.
pub proof fn law_list_is_read_once<H, P, E>(
    state: State<H, P, E>,
    cells: Seq<VisitValue<H>>,
    events: Seq<EventView<H, P, E>>,
)
    requires
        state.wf(),
        state.task matches Task::SequenceCells { size } && size == cells.len(),
    ensures
        visits(
            state.step(EventView::SequenceCells(cells)),
            events,
            state.nodes.len(),
            element_nodes(cells, state.region()),
        ),
        state.type_index() == 75 ==> (state.request() matches Request::SequenceCells {
            snapshot,
            ..
        } && snapshot),
{
    let pending = step::cell_frames(cells, 0);
    walker::lemma_node_below(state.frames);
    step::lemma_cell_frames(cells, 0);
    lemma_waiting_cells(cells, 0, state.region());
    assert(cells.skip(0) =~= cells);
    lemma_between(
        state.step(EventView::SequenceCells(cells)),
        events,
        state.frames,
        pending,
    );
}

/// The keys and values of entries, each key before its value, all in the region of the
/// dict.
pub open spec fn entry_nodes<H>(
    entries: Seq<(VisitValue<H>, VisitValue<H>)>,
    region: DefRegionKind,
) -> Seq<Node<H>> {
    Seq::new(
        2 * entries.len(),
        |i: int|
            Node {
                value: if i % 2 == 0 {
                    entries[i / 2].0
                } else {
                    entries[i / 2].1
                },
                region,
            },
    )
}

proof fn lemma_waiting_entries<H>(
    entries: Seq<(VisitValue<H>, VisitValue<H>)>,
    from: nat,
    region: DefRegionKind,
)
    requires
        from <= entries.len(),
    ensures
        waiting(step::entry_frames(entries, from), region) == entry_nodes(
            entries.skip(from as int),
            region,
        ),
    decreases entries.len() - from,
{
    let frames = step::entry_frames(entries, from);
    let nodes = entry_nodes(entries.skip(from as int), region);
    if from < entries.len() {
        lemma_waiting_entries(entries, from + 1, region);
        let rest = entry_nodes(entries.skip(from as int + 1), region);
        let (key, value) = entries[from as int];
        let behind = frames.drop_last();
        assert(behind.drop_last() =~= step::entry_frames(entries, from + 1));
        assert(waiting(behind, region) == seq![Node { value, region }] + rest);
        assert(waiting(frames, region) == seq![Node { value: key, region }] + (seq![
            Node { value, region },
        ] + rest));
        assert forall|i: int| 2 <= i < nodes.len() implies #[trigger] nodes[i] == rest[i - 2] by {
            assert(entries.skip(from as int)[i / 2] == entries.skip(from as int + 1)[(i - 2) / 2]);
        }
    }
    assert(waiting(frames, region) =~= nodes);
}

/// Once the last entry of a dict is read, all that were read are what is visited, in
/// order and in the region of the dict. It makes no difference what the walk is told
/// afterwards: neither what the callbacks answer nor what became of the dict.
pub proof fn law_dict_is_read_once<H, P, E>(
    state: State<H, P, E>,
    value: VisitValue<H>,
    events: Seq<EventView<H, P, E>>,
)
    requires
        state.wf(),
        state.type_index() == 76,
        state.task matches Task::Value { size, index, .. } && index + 1 == size,
    ensures
        visits(
            state.step(EventView::Item(Ok(value))),
            events,
            state.nodes.len(),
            entry_nodes(state.entries.push((state.task->key, value)), state.region()),
        ),
{
    let entries = state.entries.push((state.task->key, value));
    let pending = step::entry_frames(entries, 0);
    walker::lemma_node_below(state.frames);
    step::lemma_entry_frames(entries, 0);
    lemma_waiting_entries(entries, 0, state.region());
    assert(entries.skip(0) =~= entries);
    lemma_between(state.step(EventView::Item(Ok(value))), events, state.frames, pending);
}

/// What a walk is told while the entries of a dict from `i` on are read: for each its
/// key and its value, and between two of them that the iterator has moved.
pub open spec fn reading<H, P, E>(
    entries: Seq<(VisitValue<H>, VisitValue<H>)>,
    moved: VisitValue<H>,
    i: nat,
) -> Seq<EventView<H, P, E>>
    decreases entries.len() - i,
{
    if i >= entries.len() {
        Seq::empty()
    } else {
        let entry = seq![
            EventView::Item(Ok(entries[i as int].0)),
            EventView::Item(Ok(entries[i as int].1)),
        ];
        if i + 1 == entries.len() {
            entry
        } else {
            entry + seq![EventView::Item(Ok(moved))] + reading(entries, moved, i + 1)
        }
    }
}

/// Whether a walk that is told `events` asks for no callback before the last of them.
pub open spec fn undisturbed<H, P, E>(
    state: State<H, P, E>,
    events: Seq<EventView<H, P, E>>,
) -> bool
    decreases events.len(),
{
    events.len() > 0 ==> {
        &&& !(state.task is Enter || state.task is Exit)
        &&& undisturbed(state.step(events[0]), events.drop_first())
    }
}

proof fn lemma_reading<H, P, E>(
    state: State<H, P, E>,
    entries: Seq<(VisitValue<H>, VisitValue<H>)>,
    moved: VisitValue<H>,
    i: nat,
)
    requires
        i < entries.len(),
        entries.len() <= usize::MAX,
        state.type_index() == 76,
        state.entries == entries.take(i as int),
        state.task matches Task::Key { size, index, .. } && size == entries.len() && index == i,
    ensures
        after(state, reading(entries, moved, i)) == (State {
            frames: state.frames + step::entry_frames(entries, 0),
            entries: Seq::empty(),
            task: Task::<H, P, E>::Return(Ok(())),
            ..state
        }),
        undisturbed(state, reading(entries, moved, i)),
    decreases entries.len() - i,
{
    let events = reading::<H, P, E>(entries, moved, i);
    let keyed = state.step(events[0]);
    let valued = keyed.step(events[1]);
    let later = events.drop_first().drop_first();
    assert(entries.take(i as int).push(entries[i as int]) =~= entries.take(i as int + 1));
    assert(events.drop_first()[0] == events[1]);
    assert(after(state, events) == after(keyed, events.drop_first()));
    assert(after(keyed, events.drop_first()) == after(valued, later));
    assert(undisturbed(keyed, events.drop_first()) == undisturbed(valued, later));
    if i + 1 == entries.len() {
        assert(entries.take(i as int + 1) =~= entries);
        assert(later.len() == 0);
        assert(after(valued, later) =~= State {
            frames: state.frames + step::entry_frames(entries, 0),
            entries: Seq::empty(),
            task: Task::<H, P, E>::Return(Ok(())),
            ..state
        });
    } else {
        let next = valued.step(later[0]);
        assert(later.drop_first() =~= reading(entries, moved, i + 1));
        assert(after(valued, later) == after(next, later.drop_first()));
        lemma_reading(next, entries, moved, i + 1);
    }
}

/// A dict is read whole before the first callback runs on what it holds, and what was
/// read is what is visited: each key before its value, in the order of the iterator. It
/// makes no difference what the walk is told once the dict is read: neither what the
/// callbacks answer nor what became of the dict.
pub proof fn law_dict_is_snapshot<H, P, E>(
    state: State<H, P, E>,
    iter: H,
    entries: Seq<(VisitValue<H>, VisitValue<H>)>,
    moved: VisitValue<H>,
    events: Seq<EventView<H, P, E>>,
)
    requires
        state.wf(),
        state.type_index() == 76,
        state.task matches Task::MapIter { size } && size == entries.len(),
    ensures
        ({
            let first = state.step(EventView::MapIter(Ok(iter)));
            let read = after(first, reading(entries, moved, 0));
            &&& undisturbed(first, reading(entries, moved, 0))
            &&& visits(read, events, state.nodes.len(), entry_nodes(entries, state.region()))
        }),
{
    let first = state.step(EventView::MapIter(Ok(iter)));
    assert(entries.take(0) =~= Seq::empty());
    lemma_reading(first, entries, moved, 0);
    walker::lemma_node_below(state.frames);
    step::lemma_entry_frames(entries, 0);
    lemma_waiting_entries(entries, 0, state.region());
    assert(entries.skip(0) =~= entries);
    lemma_between(
        after(first, reading(entries, moved, 0)),
        events,
        state.frames,
        step::entry_frames(entries, 0),
    );
}

} // verus!
