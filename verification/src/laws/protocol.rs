//! What a walk asks of the runtime, and in which order.
use vstd::prelude::*;

use crate::error::{Error, Fault, Place};
use crate::kind::DefRegionKind;
use crate::outcome::{NativeHalt, WalkResult};
use crate::step;
use crate::step::{Answer, EventView, Frame, Request, State, Task};
use crate::value::{FieldInfo, VisitValue};
use crate::walker;

verus! {

/// The state of a walk once its callback has answered to advance.
pub open spec fn advanced<H, P, E>(state: State<H, P, E>) -> State<H, P, E> {
    state.step(EventView::Answered(Answer { result: Ok(WalkResult::Advance), halted: None }))
}

/// Behind the enter callback of a value that is not skipped, the walk asks for the size of
/// a sequence or a map. Of any other value it first asks for the hook, unless no type has
/// one, and then for the fields of an object.
pub proof fn law_children_are_asked_for<H, P, E>(
    state: State<H, P, E>,
    value: VisitValue<H>,
    region: DefRegionKind,
)
    requires
        state.wf(),
        state.request() == (Request::Enter { value: &value, region }),
    ensures
        ({
            let index = value.type_index;
            let next = advanced(state).request();
            &&& index == 71 || index == 75 ==> next == (Request::SequenceHeader { value: &value })
            &&& index == 72 ==> (next matches Request::MapSize { value: asked, function } && asked
                == value && function@ == "ffi.MapSize"@)
            &&& index == 76 ==> (next matches Request::MapSize { value: asked, function } && asked
                == value && function@ == "ffi.DictSize"@)
            &&& index != 71 && index != 72 && index != 75 && index != 76 ==> next == if
                state.walker.structural_visit {
                Request::Hook { value: &value }
            } else if index >= 64 {
                Request::Fields { value: &value }
            } else {
                Request::Proceed
            }
        }),
{
    walker::lemma_node_below(state.frames);
}

/// A hook that is none, or that is missing, lets the walk ask for the fields of an object;
/// any other ends the walk of the value.
pub proof fn law_hook_decides<H, P, E>(
    state: State<H, P, E>,
    value: VisitValue<H>,
    hook: Option<i32>,
)
    requires
        state.wf(),
        state.request() == (Request::Hook { value: &value }),
    ensures
        ({
            let next = state.step(EventView::Hook(hook));
            if hook is None || hook == Some(0i32) {
                next.request() == if value.type_index >= 64 {
                    Request::Fields { value: &value }
                } else {
                    Request::Proceed
                }
            } else {
                next.task == Task::<H, P, E>::Return(
                    Err(
                        NativeHalt::Error(
                            Error::Native(
                                if hook == Some(4i32) || hook == Some(68i32) {
                                    Fault::ForeignHook { type_index: value.type_index }
                                } else {
                                    Fault::InvalidHook
                                },
                            ),
                        ),
                    ),
                )
            }
        }),
{
    walker::lemma_node_below(state.frames);
}

/// A sound sequence that is not empty is asked for all its elements, and for owned ones if
/// it is a list.
pub proof fn law_elements_are_asked_for<H, P, E>(
    state: State<H, P, E>,
    value: VisitValue<H>,
    size: i64,
)
    requires
        state.wf(),
        state.request() == (Request::SequenceHeader { value: &value }),
        0 < size <= usize::MAX,
    ensures
        state.step(EventView::SequenceHeader { size, null: false }).request() == (
        Request::SequenceCells {
            value: &value,
            size: size as usize,
            snapshot: value.type_index == 75,
        }),
        state.step(EventView::SequenceHeader { size: 0, null: false }).task == Task::<
            H,
            P,
            E,
        >::Return(Ok(())),
        state.step(EventView::SequenceHeader { size: 0, null: true }).task == Task::<
            H,
            P,
            E,
        >::Return(Ok(())),
{
    walker::lemma_node_below(state.frames);
}

/// A map that is not empty is asked for its iterator, and the iterator for its first key.
pub proof fn law_iterator_is_asked_for<H, P, E>(
    state: State<H, P, E>,
    value: VisitValue<H>,
    function: &'static str,
    size: i64,
    iter: H,
)
    requires
        state.wf(),
        state.request() == (Request::MapSize { value: &value, function }),
        0 < size <= usize::MAX,
    ensures
        ({
            let sized = state.step(EventView::MapSize(Ok(size)));
            let begun = sized.step(EventView::MapIter(Ok(iter)));
            &&& sized.request() matches Request::MapIter { value: asked, function: named } && asked
                == value && named@ == if value.type_index == 76 {
                "ffi.DictForwardIterFunctor"@
            } else {
                "ffi.MapForwardIterFunctor"@
            }
            &&& begun.request() == (Request::Iterate { iter: &iter, index: 0, command: 0 })
            &&& state.step(EventView::MapSize(Ok(0))).task == Task::<H, P, E>::Return(Ok(()))
        }),
{
    walker::lemma_node_below(state.frames);
}

/// Command 0 reads a key, command 1 the value behind it, and command 2 moves on to the next
/// key. A map that stands at a key reads its value; one that has moved reads the next key.
pub proof fn law_iterator_commands<H, P, E>(
    state: State<H, P, E>,
    iter: H,
    index: usize,
    command: i64,
    item: VisitValue<H>,
)
    requires
        state.wf(),
        state.request() == (Request::Iterate { iter: &iter, index, command }),
    ensures
        ({
            let next = state.step(EventView::Item(Ok(item)));
            &&& command == 0 || command == 1 || command == 2
            &&& command == 0 ==> {
                &&& next.request() == (Request::Iterate { iter: &iter, index, command: 1 })
                &&& next.task matches Task::Value { key, .. } && key == item
                &&& next.entries == state.entries
            }
            &&& command == 2 ==> next.request() == (Request::Iterate {
                iter: &iter,
                index: (index + 1) as usize,
                command: 0,
            })
            &&& command == 1 ==> (state.task matches Task::Value { size, key, .. } && {
                if state.nodes.last().value.type_index == 76 {
                    &&& next.nodes == state.nodes
                    &&& index + 1 < size ==> next.request() == (Request::Iterate {
                        iter: &iter,
                        index,
                        command: 2,
                    }) && next.entries == state.entries.push((key, item))
                } else {
                    &&& next.task == (Task::<H, P, E>::Visit {
                        value: key,
                        region: state.nodes.last().region,
                    })
                    &&& next.frames == state.frames + seq![
                        Frame::MapNext { iter, size, index },
                        Frame::Item { value: item, place: Place::MapValue { index } },
                        Frame::Within { place: Place::MapKey { index } },
                    ]
                }
            })
        }),
{
    walker::lemma_node_below(state.frames);
    if let Task::Value { iter, size, index, key } = state.task {
        assert(state.frames.push(Frame::MapNext { iter, size, index }).push(
            Frame::Item { value: item, place: Place::MapValue { index } },
        ).push(Frame::Within { place: Place::MapKey { index } }) =~= state.frames + seq![
            Frame::MapNext { iter, size, index },
            Frame::Item { value: item, place: Place::MapValue { index } },
            Frame::Within { place: Place::MapKey { index } },
        ]);
    }
}

proof fn lemma_field_frames_order<H>(fields: Seq<FieldInfo>, from: nat)
    requires
        from <= fields.len(),
    ensures
        step::field_frames::<H>(fields, from).len() == fields.len() - from,
        forall|j: int|
            0 <= j < fields.len() - from ==> #[trigger] step::field_frames::<H>(fields, from)[j]
                == (Frame::<H>::Field { field: fields[fields.len() - 1 - j] }),
    decreases fields.len() - from,
{
    if from < fields.len() {
        lemma_field_frames_order::<H>(fields, from + 1);
    }
}

/// The fields of an object stand on the frames with the first on top: they are read in
/// order, and all of them.
pub proof fn law_fields_are_read_in_order<H, P, E>(
    state: State<H, P, E>,
    value: VisitValue<H>,
    fields: Seq<FieldInfo>,
)
    requires
        state.wf(),
        state.request() == (Request::Fields { value: &value }),
    ensures
        ({
            let next = state.step(EventView::Fields(Some(fields)));
            &&& next.task == Task::<H, P, E>::Return(Ok(()))
            &&& next.nodes == state.nodes
            &&& next.frames == state.frames + fields.reverse().map_values(
                |field: FieldInfo| Frame::<H>::Field { field },
            )
        }),
        state.step(EventView::Fields(None)).task == Task::<H, P, E>::Return(
            Err(
                NativeHalt::Error(
                    Error::Native(Fault::UnregisteredType { type_index: value.type_index }),
                ),
            ),
        ),
{
    walker::lemma_node_below(state.frames);
    lemma_field_frames_order::<H>(fields, 0);
    assert(step::field_frames::<H>(fields, 0) =~= fields.reverse().map_values(
        |field: FieldInfo| Frame::<H>::Field { field },
    ));
}

/// A field without bit 3 that stands next is read through its getter; one with bit 3 is
/// passed over, whatever its other bits, and one without a getter ends the walk of the
/// object.
pub proof fn law_fields_are_read<H, P, E>(state: State<H, P, E>, field: FieldInfo)
    requires
        state.wf(),
        state.task == Task::<H, P, E>::Return(Ok(())),
        state.frames.len() > 0,
        state.frames.last() == (Frame::<H>::Field { field }),
    ensures
        ({
            let next = state.step(EventView::Proceed);
            &&& field.flags & 8 != 0 ==> next.task == Task::<H, P, E>::Return(Ok(()))
            &&& field.flags & 8 == 0 ==> match field.getter {
                Some(getter) => next.request() == (Request::Getter {
                    value: &state.nodes.last().value,
                    getter,
                }),
                None => next.task == Task::<H, P, E>::Return(
                    Err(
                        NativeHalt::Error(
                            Error::Native(Fault::MissingGetter { field: field.name }),
                        ),
                    ),
                ),
            }
        }),
{
    walker::lemma_node_below(state.frames);
}

/// A value read through a getter is visited next: in the non-recursive region if bit 12 of
/// the field is set, else in the recursive one if bit 4 is set, else in the region of the
/// object.
pub proof fn law_field_values_are_visited<H, P, E>(
    state: State<H, P, E>,
    field: FieldInfo,
    child: VisitValue<H>,
)
    requires
        state.wf(),
        state.task == (Task::<H, P, E>::Getter { field }),
    ensures
        state.step(EventView::Item(Ok(child))).task == (Task::<H, P, E>::Visit {
            value: child,
            region: if field.flags & 4096 != 0 {
                DefRegionKind::NonRecursive
            } else if field.flags & 16 != 0 {
                DefRegionKind::Recursive
            } else {
                state.nodes.last().region
            },
        }),
{
}

/// Once nothing is left to do below a value, its exit callback is asked for; once that has
/// answered without a halt, the walk of the value has ended well. A walk with nothing left
/// to do is finished.
pub proof fn law_exit_is_asked_for<H, P, E>(state: State<H, P, E>)
    requires
        state.wf(),
        state.task == Task::<H, P, E>::Return(Ok(())),
        state.frames.len() > 0,
        state.frames.last() is Node,
    ensures
        ({
            let next = state.step(EventView::Proceed);
            let node = state.nodes.last();
            &&& next.request() == (Request::Exit { value: &node.value, region: node.region })
            &&& advanced(next).task == Task::<H, P, E>::Return(Ok(()))
            &&& advanced(next).nodes == state.nodes.drop_last()
            &&& state.frames.len() == 1 ==> advanced(next).request() == Request::<'_, H>::Finished
        }),
{
    walker::lemma_node_below(state.frames);
}

/// What does not answer the request of a walk changes nothing, and a walk that has finished
/// stays as it is.
pub proof fn law_finished_walk_stays<H, P, E>(
    state: State<H, P, E>,
    event: EventView<H, P, E>,
)
    requires
        state.wf(),
        state.request() == Request::<'_, H>::Finished,
    ensures
        state.step(event) == state,
        state.finished(),
        state.task is Return,
        state.frames.len() == 0,
{
}

/// A walk has finished exactly where it asks for nothing more.
pub proof fn law_finished_walk_asks_nothing<H, P, E>(state: State<H, P, E>)
    requires
        state.wf(),
    ensures
        state.finished() <==> state.request() == Request::<'_, H>::Finished,
        state.finished() <==> state.task is Return && state.frames.len() == 0,
{
}

} // verus!
