//! The transitions of a walk.
//!
//! A walk over values that live in a runtime cannot read them by itself. It is
//! written as a transition system: [`State::request`] says what the walk needs
//! to know next, and [`State::step`] is the state once the answer is there. The
//! values that are being visited, innermost last, stand in `nodes`; what is left
//! to do once the current task has a result stands in `frames`, next one last.
use vstd::prelude::*;

use crate::error::{Error, Fault, Place};
use crate::kind;
use crate::kind::{
    DefRegionKind, FLAG_SEQ_HASH_IGNORE, TYPE_DICT, TYPE_FUNCTION, TYPE_LIST, TYPE_NONE,
    TYPE_OPAQUE_PTR,
};
use crate::outcome::{NativeHalt, NativeResult, VisitResult, WalkResult};
use crate::value::{FieldInfo, VisitValue};

verus! {

/// A value whose visit has begun and not ended.
pub struct Node<H> {
    pub value: VisitValue<H>,
    /// Definition region in which the value is visited.
    pub region: DefRegionKind,
}

/// What is left to do once the current task has a result.
pub enum Frame<H> {
    /// The children of the innermost value are being visited; its exit callback is next.
    Node,
    /// A child whose visit has not begun.
    Item { value: VisitValue<H>, place: Place },
    /// A child that is being visited.
    Within { place: Place },
    /// A reflected field that has not been read.
    Field { field: FieldInfo },
    /// The entries of a map behind the entry at `index`.
    MapNext { iter: H, size: usize, index: usize },
}

/// What a walk is doing.
pub enum Task<H, P, E> {
    /// Begin the visit of a value.
    Visit { value: VisitValue<H>, region: DefRegionKind },
    /// Wait for the enter callback of the innermost value.
    Enter,
    /// Wait for the exit callback of the innermost value.
    Exit,
    /// Wait for the visit hook of the innermost value's type.
    Hook,
    /// Wait for the header of a sequence.
    SequenceHeader,
    /// Wait for the elements of a sequence.
    SequenceCells { size: usize },
    /// Wait for the size of a map.
    MapSize,
    /// Wait for the iterator of a map.
    MapIter { size: usize },
    /// Wait for the key that the iterator stands at.
    Key { iter: H, size: usize, index: usize },
    /// Wait for the value that the iterator stands at.
    Value { iter: H, size: usize, index: usize, key: VisitValue<H> },
    /// Wait for the iterator to move on.
    Next { iter: H, size: usize, index: usize },
    /// Wait for the reflected fields of the innermost value's type.
    Fields,
    /// Wait for the value of a reflected field.
    Getter { field: FieldInfo },
    /// Hand a result to the next frame.
    Return(NativeResult<P, E>),
}

/// What a callback answered, and how a visit that it made itself halted.
pub struct Answer<P, E> {
    pub result: VisitResult<P, E>,
    pub halted: Option<NativeHalt<P, E>>,
}

/// What a walk needs to know next.
pub enum Request<'r, H> {
    /// Nothing: [`Event::Proceed`] takes it on.
    Proceed,
    /// The answer of the enter callback.
    Enter { value: &'r VisitValue<H>, region: DefRegionKind },
    /// The answer of the exit callback.
    Exit { value: &'r VisitValue<H>, region: DefRegionKind },
    /// The type index of the visit hook that the value's type registers, if any.
    Hook { value: &'r VisitValue<H> },
    /// The size of a sequence, and whether its data pointer is null.
    SequenceHeader { value: &'r VisitValue<H> },
    /// The elements of a sequence. Those of a mutable one are owned by the walk
    /// from here on.
    SequenceCells { value: &'r VisitValue<H>, size: usize, snapshot: bool },
    /// What `function` returns for the map.
    MapSize { value: &'r VisitValue<H>, function: &'static str },
    /// What `function` returns for the map.
    MapIter { value: &'r VisitValue<H>, function: &'static str },
    /// What the iterator returns for `command`, standing at the entry at `index`:
    /// its key for 0, its value for 1; 2 moves the iterator on.
    Iterate { iter: &'r H, index: usize, command: i64 },
    /// The reflected fields of the value's type, those of its ancestors first.
    Fields { value: &'r VisitValue<H> },
    /// The value of a reflected field.
    Getter { value: &'r VisitValue<H>, getter: usize },
    /// Nothing: the walk has ended.
    Finished,
}

/// What a walk is told.
pub enum Event<H, P, E> {
    Proceed,
    Answered(Answer<P, E>),
    Hook(Option<i32>),
    SequenceHeader { size: i64, null: bool },
    SequenceCells(Vec<VisitValue<H>>),
    MapSize(Result<i64, E>),
    MapIter(Result<H, E>),
    /// What an iterator or a getter returned.
    Item(Result<VisitValue<H>, E>),
    /// The fields of a registered type.
    Fields(Option<Vec<FieldInfo>>),
}

/// [`Event`], with sequences in place of vectors.
pub enum EventView<H, P, E> {
    Proceed,
    Answered(Answer<P, E>),
    Hook(Option<i32>),
    SequenceHeader { size: i64, null: bool },
    SequenceCells(Seq<VisitValue<H>>),
    MapSize(Result<i64, E>),
    MapIter(Result<H, E>),
    Item(Result<VisitValue<H>, E>),
    Fields(Option<Seq<FieldInfo>>),
}

impl<H, P, E> View for Event<H, P, E> {
    type V = EventView<H, P, E>;

    open spec fn view(&self) -> EventView<H, P, E> {
        match *self {
            Event::Proceed => EventView::Proceed,
            Event::Answered(answer) => EventView::Answered(answer),
            Event::Hook(attr) => EventView::Hook(attr),
            Event::SequenceHeader { size, null } => EventView::SequenceHeader { size, null },
            Event::SequenceCells(cells) => EventView::SequenceCells(cells@),
            Event::MapSize(size) => EventView::MapSize(size),
            Event::MapIter(iter) => EventView::MapIter(iter),
            Event::Item(item) => EventView::Item(item),
            Event::Fields(Some(fields)) => EventView::Fields(Some(fields@)),
            Event::Fields(None) => EventView::Fields(None),
        }
    }
}

/// What the walker knows of the runtime from the start.
#[derive(Clone, Copy, Debug, PartialEq, Eq, Structural)]
pub struct NativeWalker {
    /// Whether any type registers a visit hook.
    pub structural_visit: bool,
}

/// State of a walk.
#[verifier::ext_equal]
pub struct State<H, P, E> {
    pub walker: NativeWalker,
    pub nodes: Seq<Node<H>>,
    pub frames: Seq<Frame<H>>,
    /// Entries of the dict that is being read, so far.
    pub entries: Seq<(VisitValue<H>, VisitValue<H>)>,
    pub task: Task<H, P, E>,
}

/// What an answer means for the walk: `Ok(true)` to go on, `Ok(false)` to leave
/// out what is below the value, or the halt.
///
/// The callback's own error goes before the halt of a visit that it made, and
/// both before what it asked for. Errors pass the value; an interruption that the
/// callback asks for does not.
pub open spec fn verdict<P, E>(answer: Answer<P, E>, type_index: i32) -> Result<
    bool,
    NativeHalt<P, E>,
> {
    match answer.result {
        Err(error) => Err(NativeHalt::Error(error).past_value(type_index)),
        Ok(flow) => match answer.halted {
            Some(halt) => Err(halt.past_value(type_index)),
            None => match flow {
                WalkResult::Advance => Ok(true),
                WalkResult::Skip => Ok(false),
                WalkResult::Interrupt => Err(NativeHalt::Interrupt(None)),
                WalkResult::InterruptWith(payload) => Err(NativeHalt::Interrupt(Some(payload))),
            },
        },
    }
}

/// Whether a type with the visit hook `attr` is refused, and why. A hook is an
/// opaque function pointer or a function object; the none value stands for no hook.
pub open spec fn hook_fault(type_index: i32, attr: Option<i32>) -> Option<Fault> {
    match attr {
        None => None,
        Some(hook) => if hook == TYPE_NONE {
            None
        } else if hook == TYPE_OPAQUE_PTR || hook == TYPE_FUNCTION {
            Some(Fault::ForeignHook { type_index })
        } else {
            Some(Fault::InvalidHook)
        },
    }
}

/// What is wrong with a sequence that reports this header.
pub open spec fn sequence_fault(size: i64, null: bool) -> Option<Fault> {
    if size < 0 {
        Some(Fault::NegativeSequenceSize)
    } else if null && size != 0 {
        Some(Fault::NullSequenceData)
    } else if size > usize::MAX {
        Some(Fault::SequenceSizeOverflow)
    } else {
        None
    }
}

/// What is wrong with a map that reports this size.
pub open spec fn map_fault(size: i64) -> Option<Fault> {
    if size < 0 {
        Some(Fault::NegativeMapSize)
    } else if size > usize::MAX {
        Some(Fault::MapSizeOverflow)
    } else {
        None
    }
}

/// Frames for the elements of a sequence from `from` on.
pub open spec fn cell_frames<H>(cells: Seq<VisitValue<H>>, from: nat) -> Seq<Frame<H>>
    decreases cells.len() - from,
{
    if from >= cells.len() {
        Seq::empty()
    } else {
        cell_frames(cells, from + 1).push(
            Frame::Item {
                value: cells[from as int],
                place: Place::SequenceItem { index: from as usize },
            },
        )
    }
}

/// Each element has one frame, of an item.
pub proof fn lemma_cell_frames<H>(cells: Seq<VisitValue<H>>, from: nat)
    requires
        from <= cells.len(),
    ensures
        cell_frames(cells, from).len() == cells.len() - from,
        forall|i: int|
            0 <= i < cell_frames(cells, from).len() ==> #[trigger] cell_frames(
                cells,
                from,
            )[i] is Item,
    decreases cells.len() - from,
{
    if from < cells.len() {
        lemma_cell_frames(cells, from + 1);
    }
}

/// Frames for the entries of a dict from `from` on: each key before its value.
pub open spec fn entry_frames<H>(
    entries: Seq<(VisitValue<H>, VisitValue<H>)>,
    from: nat,
) -> Seq<Frame<H>>
    decreases entries.len() - from,
{
    if from >= entries.len() {
        Seq::empty()
    } else {
        entry_frames(entries, from + 1).push(
            Frame::Item {
                value: entries[from as int].1,
                place: Place::DictValue { index: from as usize },
            },
        ).push(
            Frame::Item {
                value: entries[from as int].0,
                place: Place::DictKey { index: from as usize },
            },
        )
    }
}

/// Each entry has two frames, of items.
pub proof fn lemma_entry_frames<H>(entries: Seq<(VisitValue<H>, VisitValue<H>)>, from: nat)
    requires
        from <= entries.len(),
    ensures
        entry_frames(entries, from).len() == 2 * (entries.len() - from),
        forall|i: int|
            0 <= i < entry_frames(entries, from).len() ==> #[trigger] entry_frames(
                entries,
                from,
            )[i] is Item,
    decreases entries.len() - from,
{
    if from < entries.len() {
        lemma_entry_frames(entries, from + 1);
    }
}

/// Frames for the reflected fields from `from` on.
pub open spec fn field_frames<H>(fields: Seq<FieldInfo>, from: nat) -> Seq<Frame<H>>
    decreases fields.len() - from,
{
    if from >= fields.len() {
        Seq::empty()
    } else {
        field_frames(fields, from + 1).push(Frame::Field { field: fields[from as int] })
    }
}

/// Each reflected field has one frame, of a field.
pub proof fn lemma_field_frames<H>(fields: Seq<FieldInfo>, from: nat)
    requires
        from <= fields.len(),
    ensures
        field_frames::<H>(fields, from).len() == fields.len() - from,
        forall|i: int|
            0 <= i < field_frames::<H>(fields, from).len() ==> #[trigger] field_frames::<H>(
                fields,
                from,
            )[i] is Field,
    decreases fields.len() - from,
{
    if from < fields.len() {
        lemma_field_frames::<H>(fields, from + 1);
    }
}

/// How many values have a frame of their own.
pub open spec fn node_frames<H>(frames: Seq<Frame<H>>) -> nat
    decreases frames.len(),
{
    if frames.len() == 0 {
        0
    } else {
        node_frames(frames.drop_last()) + if frames.last() is Node {
            1nat
        } else {
            0nat
        }
    }
}

/// The rest of a map stands on the map's own frame, at one of its entries.
pub open spec fn well_placed<H>(frames: Seq<Frame<H>>, i: int) -> bool {
    frames[i] matches Frame::MapNext { size, index, .. } ==> {
        &&& index < size
        &&& i > 0
        &&& frames[i - 1] is Node
    }
}

pub open spec fn all_placed<H>(frames: Seq<Frame<H>>) -> bool {
    forall|i: int| 0 <= i < frames.len() ==> #[trigger] well_placed(frames, i)
}

impl<H, P, E> State<H, P, E> {
    /// A walk that has not begun.
    pub open spec fn start(
        walker: NativeWalker,
        value: VisitValue<H>,
        region: DefRegionKind,
    ) -> Self {
        State {
            walker,
            nodes: Seq::empty(),
            frames: Seq::empty(),
            entries: Seq::empty(),
            task: Task::Visit { value, region },
        }
    }

    /// Type index of the innermost value.
    pub open spec fn type_index(self) -> i32 {
        self.nodes.last().value.type_index
    }

    /// Region of the innermost value.
    pub open spec fn region(self) -> DefRegionKind {
        self.nodes.last().region
    }

    /// The current task has a result.
    pub open spec fn returning(self, result: NativeResult<P, E>) -> Self {
        State { task: Task::Return(result), ..self }
    }

    /// The walker found a fault.
    pub open spec fn fail(self, fault: Fault) -> Self {
        self.returning(Err(NativeHalt::Error(Error::Native(fault))))
    }

    /// The runtime raised an error.
    pub open spec fn raise(self, error: E) -> Self {
        State { entries: Seq::empty(), ..self }.returning(
            Err(NativeHalt::Error(Error::Raised(error))),
        )
    }

    /// The visit of the innermost value ends.
    pub open spec fn leave(self, result: NativeResult<P, E>) -> Self {
        State { nodes: self.nodes.drop_last(), frames: self.frames.drop_last(), ..self }.returning(
            result,
        )
    }

    /// The next frame is taken off.
    pub open spec fn pop(self) -> Self {
        State { frames: self.frames.drop_last(), ..self }
    }

    /// Begin the visit of a value: the none value has none.
    pub open spec fn visit_raw(self, value: VisitValue<H>, region: DefRegionKind) -> Self {
        if value.type_index == TYPE_NONE {
            self.returning(Ok(()))
        } else {
            State {
                nodes: self.nodes.push(Node { value, region }),
                frames: self.frames.push(Frame::Node),
                task: Task::Enter,
                ..self
            }
        }
    }

    /// Begin the visit of a child at `place`.
    pub open spec fn visit_child(
        self,
        value: VisitValue<H>,
        place: Place,
        region: DefRegionKind,
    ) -> Self {
        State {
            frames: self.frames.push(Frame::Within { place }),
            task: Task::Visit { value, region },
            ..self
        }
    }

    /// The enter callback of the innermost value answered.
    pub open spec fn entered(self, answer: Answer<P, E>) -> Self {
        match verdict(answer, self.type_index()) {
            Ok(true) => self.visit_children_raw(),
            Ok(false) => self.leave(Ok(())),
            Err(halt) => self.leave(Err(halt)),
        }
    }

    /// The exit callback of the innermost value answered.
    pub open spec fn exited(self, answer: Answer<P, E>) -> Self {
        match verdict(answer, self.type_index()) {
            Ok(_) => self.leave(Ok(())),
            Err(halt) => self.leave(Err(halt)),
        }
    }

    /// Begin the visit of the innermost value's children: containers by their
    /// elements, everything else only once its type is known to have no hook.
    pub open spec fn visit_children_raw(self) -> Self {
        if kind::is_sequence(self.type_index()) {
            State { task: Task::SequenceHeader, ..self }
        } else if kind::is_map(self.type_index()) {
            State { task: Task::MapSize, ..self }
        } else if self.walker.structural_visit {
            State { task: Task::Hook, ..self }
        } else {
            self.visit_reflected()
        }
    }

    /// The visit hook of the innermost value's type is known.
    pub open spec fn hooked(self, attr: Option<i32>) -> Self {
        match hook_fault(self.type_index(), attr) {
            Some(fault) => self.fail(fault),
            None => self.visit_reflected(),
        }
    }

    /// Objects are visited by their reflected fields; inline values have no children.
    pub open spec fn visit_reflected(self) -> Self {
        if kind::is_object(self.type_index()) {
            State { task: Task::Fields, ..self }
        } else {
            self.returning(Ok(()))
        }
    }

    /// The header of a sequence is known.
    pub open spec fn visit_sequence(self, size: i64, null: bool) -> Self {
        match sequence_fault(size, null) {
            Some(fault) => self.fail(fault),
            None => if size == 0 {
                self.returning(Ok(()))
            } else {
                State { task: Task::SequenceCells { size: size as usize }, ..self }
            },
        }
    }

    /// The elements of a sequence are known.
    pub open spec fn sequence_cells(self, cells: Seq<VisitValue<H>>) -> Self {
        State { frames: self.frames + cell_frames(cells, 0), ..self }.returning(Ok(()))
    }

    /// The size of a map is known.
    pub open spec fn visit_map(self, size: Result<i64, E>) -> Self {
        match size {
            Err(error) => self.raise(error),
            Ok(size) => match map_fault(size) {
                Some(fault) => self.fail(fault),
                None => if size == 0 {
                    self.returning(Ok(()))
                } else {
                    State { task: Task::MapIter { size: size as usize }, ..self }
                },
            },
        }
    }

    /// The iterator of a map is there.
    pub open spec fn map_iter(self, size: usize, iter: Result<H, E>) -> Self {
        match iter {
            Err(error) => self.raise(error),
            Ok(iter) => State {
                entries: Seq::empty(),
                task: Task::Key { iter, size, index: 0 },
                ..self
            },
        }
    }

    /// The key of the entry at `index` is there.
    pub open spec fn map_key(
        self,
        iter: H,
        size: usize,
        index: usize,
        item: Result<VisitValue<H>, E>,
    ) -> Self {
        match item {
            Err(error) => self.raise(error),
            Ok(key) => State { task: Task::Value { iter, size, index, key }, ..self },
        }
    }

    /// The value of the entry at `index` is there. All entries of a dict are read
    /// before the first is visited; a map is visited entry by entry.
    pub open spec fn map_value(
        self,
        iter: H,
        size: usize,
        index: usize,
        key: VisitValue<H>,
        item: Result<VisitValue<H>, E>,
    ) -> Self {
        match item {
            Err(error) => self.raise(error),
            Ok(value) => if self.type_index() == TYPE_DICT {
                let entries = self.entries.push((key, value));
                if index + 1 != size {
                    State { entries, task: Task::Next { iter, size, index }, ..self }
                } else {
                    State {
                        frames: self.frames + entry_frames(entries, 0),
                        entries: Seq::empty(),
                        ..self
                    }.returning(Ok(()))
                }
            } else {
                State {
                    frames: self.frames.push(Frame::MapNext { iter, size, index }).push(
                        Frame::Item { value, place: Place::MapValue { index } },
                    ),
                    ..self
                }.visit_child(key, Place::MapKey { index }, self.region())
            },
        }
    }

    /// The entry of a map at `index` has been visited.
    pub open spec fn map_next(self, iter: H, size: usize, index: usize) -> Self {
        if index + 1 != size {
            State { task: Task::Next { iter, size, index }, ..self }
        } else {
            self.returning(Ok(()))
        }
    }

    /// The iterator has moved on from `index`.
    pub open spec fn map_advanced(
        self,
        iter: H,
        size: usize,
        index: usize,
        item: Result<VisitValue<H>, E>,
    ) -> Self {
        match item {
            Err(error) => self.raise(error),
            Ok(_) => State {
                task: Task::Key { iter, size, index: (index + 1) as usize },
                ..self
            },
        }
    }

    /// The reflected fields of the innermost value's type are known, if the type
    /// is registered.
    pub open spec fn visit_reflected_fields(self, fields: Option<Seq<FieldInfo>>) -> Self {
        match fields {
            None => self.fail(Fault::UnregisteredType { type_index: self.type_index() }),
            Some(fields) => State {
                frames: self.frames + field_frames(fields, 0),
                ..self
            }.returning(Ok(())),
        }
    }

    /// Begin the visit of a reflected field.
    pub open spec fn visit_reflected_field(self, field: FieldInfo) -> Self {
        if kind::has_flag(field.flags, FLAG_SEQ_HASH_IGNORE) {
            self.returning(Ok(()))
        } else if field.getter is None {
            self.fail(Fault::MissingGetter { field: field.name })
        } else {
            State { task: Task::Getter { field }, ..self }
        }
    }

    /// The getter of a reflected field returned.
    pub open spec fn field_value(self, field: FieldInfo, item: Result<VisitValue<H>, E>) -> Self {
        let place = Place::Field { name: field.name };
        match item {
            Err(error) => self.returning(
                Err(NativeHalt::Error(Error::Raised(error)).past(place)),
            ),
            Ok(child) => self.visit_child(
                child,
                place,
                kind::region_of_field(field.flags, self.region()),
            ),
        }
    }

    /// The next frame takes the result of the current task.
    pub open spec fn resume(self, result: NativeResult<P, E>) -> Self {
        match result {
            Ok(()) => match self.frames.last() {
                Frame::Node => State { task: Task::Exit, ..self },
                Frame::Item { value, place } => self.pop().visit_child(value, place, self.region()),
                Frame::Within { place } => self.pop().returning(Ok(())),
                Frame::Field { field } => self.pop().visit_reflected_field(field),
                Frame::MapNext { iter, size, index } => self.pop().map_next(iter, size, index),
            },
            Err(halt) => match self.frames.last() {
                Frame::Node => self.leave(Err(halt.past_value(self.type_index()))),
                Frame::Within { place } => self.pop().returning(Err(halt.past(place))),
                _ => self.pop().returning(Err(halt)),
            },
        }
    }

    /// Whether the walk has ended.
    pub open spec fn finished(self) -> bool {
        self.frames.len() == 0 && self.task is Return
    }

    /// The state once the walk is told `event`. An event that does not answer the
    /// walk's request changes nothing.
    pub open spec fn step(self, event: EventView<H, P, E>) -> Self {
        match (self.task, event) {
            (Task::Visit { value, region }, EventView::Proceed) => self.visit_raw(value, region),
            (Task::Enter, EventView::Answered(answer)) => self.entered(answer),
            (Task::Exit, EventView::Answered(answer)) => self.exited(answer),
            (Task::Hook, EventView::Hook(attr)) => self.hooked(attr),
            (
                Task::SequenceHeader,
                EventView::SequenceHeader { size, null },
            ) => self.visit_sequence(size, null),
            (Task::SequenceCells { size }, EventView::SequenceCells(cells)) => if cells.len()
                == size {
                self.sequence_cells(cells)
            } else {
                self
            },
            (Task::MapSize, EventView::MapSize(size)) => self.visit_map(size),
            (Task::MapIter { size }, EventView::MapIter(iter)) => self.map_iter(size, iter),
            (Task::Key { iter, size, index }, EventView::Item(item)) => self.map_key(
                iter,
                size,
                index,
                item,
            ),
            (Task::Value { iter, size, index, key }, EventView::Item(item)) => self.map_value(
                iter,
                size,
                index,
                key,
                item,
            ),
            (Task::Next { iter, size, index }, EventView::Item(item)) => self.map_advanced(
                iter,
                size,
                index,
                item,
            ),
            (Task::Fields, EventView::Fields(fields)) => self.visit_reflected_fields(fields),
            (Task::Getter { field }, EventView::Item(item)) => self.field_value(field, item),
            (Task::Return(result), EventView::Proceed) => if self.frames.len() == 0 {
                self
            } else {
                self.resume(result)
            },
            _ => self,
        }
    }

    /// What the walk needs to know next.
    pub open spec fn request(&self) -> Request<'_, H> {
        let value = &self.nodes.last().value;
        match self.task {
            Task::Visit { .. } => Request::Proceed,
            Task::Enter => Request::Enter { value, region: self.region() },
            Task::Exit => Request::Exit { value, region: self.region() },
            Task::Hook => Request::Hook { value },
            Task::SequenceHeader => Request::SequenceHeader { value },
            Task::SequenceCells { size } => Request::SequenceCells {
                value,
                size,
                snapshot: self.type_index() == TYPE_LIST,
            },
            Task::MapSize => Request::MapSize { value, function: kind::size_function(self.type_index()) },
            Task::MapIter { size } => Request::MapIter {
                value,
                function: kind::iter_function(self.type_index()),
            },
            Task::Key { iter, size, index } => Request::Iterate { iter: &iter, index, command: 0 },
            Task::Value { iter, size, index, key } => Request::Iterate {
                iter: &iter,
                index,
                command: 1,
            },
            Task::Next { iter, size, index } => Request::Iterate { iter: &iter, index, command: 2 },
            Task::Fields => Request::Fields { value },
            Task::Getter { field } => Request::Getter { value, getter: field.getter->0 },
            Task::Return(result) => if self.frames.len() == 0 {
                Request::Finished
            } else {
                Request::Proceed
            },
        }
    }

    /// Whether the task and the frames belong together: each value being visited
    /// has its frame, and a task that reads the innermost value stands right on
    /// that frame.
    pub open spec fn wf(self) -> bool {
        &&& self.nodes.len() == node_frames(self.frames)
        &&& self.frames.len() > 0 ==> self.frames[0] is Node
        &&& all_placed(self.frames)
        &&& match self.task {
            Task::Visit { .. } => true,
            Task::Return(_) => true,
            Task::Getter { field } => self.frames.len() > 0 && field.getter is Some,
            Task::MapIter { size } => self.on_node() && size > 0,
            Task::Key { size, index, .. } => self.on_node() && index < size,
            Task::Value { size, index, .. } => self.on_node() && index < size,
            Task::Next { size, index, .. } => self.on_node() && index + 1 < size,
            _ => self.on_node(),
        }
    }

    /// Whether the next frame is that of the innermost value.
    pub open spec fn on_node(self) -> bool {
        self.frames.len() > 0 && self.frames.last() is Node
    }
}

} // verus!
