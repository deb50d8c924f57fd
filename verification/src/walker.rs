//! The walk as an object: it holds its state, says what it needs to know, and
//! takes the answers.
use vstd::prelude::*;

use crate::error::{Error, Fault, Place};
use crate::kind::{
    field_def_region, map_functions, DefRegionKind, FLAG_SEQ_HASH_IGNORE, TYPE_ARRAY, TYPE_DICT,
    TYPE_FUNCTION, TYPE_LIST, TYPE_MAP, TYPE_NONE, TYPE_OPAQUE_PTR, TYPE_STATIC_OBJECT_BEGIN,
};
use crate::outcome::{with_error_context, NativeHalt, NativeResult, WalkResult};
use crate::step;
use crate::step::{Answer, Event, Frame, NativeWalker, Node, Request, State, Task};
use crate::value::{FieldInfo, VisitValue};

verus! {

/// Name of the type attribute under which a type registers its own visit hook.
pub const STRUCTURAL_VISIT_ATTR: &'static str = "__s_visit__";

impl NativeWalker {
    /// A walker for a runtime in which some type registers a visit hook, or none does.
    pub fn new(structural_visit: bool) -> (walker: Self)
        ensures
            walker == (NativeWalker { structural_visit }),
    {
        NativeWalker { structural_visit }
    }

    /// Refuses a type whose visit hook is foreign code, where `attr` is the type
    /// index of the registered hook.
    pub fn reject_foreign_structural_visit(type_index: i32, attr: Option<i32>) -> (result: Result<
        (),
        Fault,
    >)
        ensures
            result == match step::hook_fault(type_index, attr) {
                Some(fault) => Err::<(), Fault>(fault),
                None => Ok::<(), Fault>(()),
            },
    {
        let hook: i32 = match attr {
            None => return Ok(()),
            Some(hook) => hook,
        };
        if hook == TYPE_NONE {
            Ok(())
        } else if hook == TYPE_OPAQUE_PTR || hook == TYPE_FUNCTION {
            Err(Fault::ForeignHook { type_index })
        } else {
            Err(Fault::InvalidHook)
        }
    }

    /// Adds an object's place to the places that an error passed.
    pub fn with_value_context<P, E>(
        halt: NativeHalt<P, E>,
        type_index: i32,
    ) -> (passed: NativeHalt<P, E>)
        ensures
            passed == halt.past_value(type_index),
    {
        if type_index < TYPE_STATIC_OBJECT_BEGIN {
            halt
        } else {
            with_error_context(halt, Place::Object { type_index })
        }
    }

    /// What the answer of a callback on a value of the given type means for the
    /// walk: `Ok(true)` to go on, `Ok(false)` to leave out what is below the value.
    pub fn settle<P, E>(answer: Answer<P, E>, type_index: i32) -> (settled: Result<
        bool,
        NativeHalt<P, E>,
    >)
        ensures
            settled == step::verdict(answer, type_index),
    {
        let flow = match answer.result {
            Ok(flow) => flow,
            Err(error) => return Err(
                Self::with_value_context(NativeHalt::Error(error), type_index),
            ),
        };
        if let Some(halt) = answer.halted {
            return Err(Self::with_value_context(halt, type_index));
        }
        match flow {
            WalkResult::Advance => Ok(true),
            WalkResult::Skip => Ok(false),
            WalkResult::Interrupt => Err(NativeHalt::Interrupt(None)),
            WalkResult::InterruptWith(payload) => Err(NativeHalt::Interrupt(Some(payload))),
        }
    }
}

/// A walk over the values of a runtime that is asked step by step.
///
/// `H` is the handle by which the runtime finds a value again, `P` the payload of
/// an interruption, `E` what the runtime and the callbacks raise.
pub struct Walk<H, P, E> {
    walker: NativeWalker,
    nodes: Vec<Node<H>>,
    frames: Vec<Frame<H>>,
    entries: Vec<(VisitValue<H>, VisitValue<H>)>,
    task: Task<H, P, E>,
}

impl<H, P, E> View for Walk<H, P, E> {
    type V = State<H, P, E>;

    closed spec fn view(&self) -> State<H, P, E> {
        State {
            walker: self.walker,
            nodes: self.nodes@,
            frames: self.frames@,
            entries: self.entries@,
            task: self.task,
        }
    }
}

/// A walk that has a value on its frames has one on its nodes.
pub proof fn lemma_node_below<H>(frames: Seq<Frame<H>>)
    requires
        frames.len() > 0,
        frames[0] is Node,
    ensures
        step::node_frames(frames) > 0,
    decreases frames.len(),
{
    if frames.len() > 1 {
        assert(frames.drop_last()[0] == frames[0]);
        lemma_node_below(frames.drop_last());
    }
}

/// A frame counts if it is that of a value.
proof fn lemma_node_frames_push<H>(frames: Seq<Frame<H>>, frame: Frame<H>)
    ensures
        step::node_frames(frames.push(frame)) == step::node_frames(frames) + if frame is Node {
            1nat
        } else {
            0nat
        },
{
    assert(frames.push(frame).drop_last() == frames);
}

impl<H, P, E> Walk<H, P, E> {
    /// A walk of `value`, which lies in `region`.
    pub fn new(walker: NativeWalker, value: VisitValue<H>, region: DefRegionKind) -> (walk: Self)
        ensures
            walk@ == State::<H, P, E>::start(walker, value, region),
            walk@.wf(),
    {
        Walk {
            walker,
            nodes: Vec::new(),
            frames: Vec::new(),
            entries: Vec::new(),
            task: Task::Visit { value, region },
        }
    }

    /// What the walk needs to know next.
    pub fn request(&self) -> (request: Request<'_, H>)
        requires
            self@.wf(),
        ensures
            request == self@.request(),
    {
        if self.frames.len() == 0 {
            return match &self.task {
                Task::Return(_) => Request::Finished,
                _ => Request::Proceed,
            };
        }
        proof {
            lemma_node_below(self.frames@);
        }
        let node: &Node<H> = &self.nodes[self.nodes.len() - 1];
        let value: &VisitValue<H> = &node.value;
        let region: DefRegionKind = node.region;
        let type_index: i32 = value.type_index;
        match &self.task {
            Task::Visit { .. } => Request::Proceed,
            Task::Enter => Request::Enter { value, region },
            Task::Exit => Request::Exit { value, region },
            Task::Hook => Request::Hook { value },
            Task::SequenceHeader => Request::SequenceHeader { value },
            Task::SequenceCells { size } => Request::SequenceCells {
                value,
                size: *size,
                snapshot: type_index == TYPE_LIST,
            },
            Task::MapSize => Request::MapSize { value, function: map_functions(type_index).0 },
            Task::MapIter { .. } => Request::MapIter { value, function: map_functions(type_index).1 },
            Task::Key { iter, index, .. } => Request::Iterate { iter, index: *index, command: 0 },
            Task::Value { iter, index, .. } => Request::Iterate { iter, index: *index, command: 1 },
            Task::Next { iter, index, .. } => Request::Iterate { iter, index: *index, command: 2 },
            Task::Fields => Request::Fields { value },
            Task::Getter { field } => match field.getter {
                Some(getter) => Request::Getter { value, getter },
                None => Request::Proceed,
            },
            Task::Return(_) => Request::Proceed,
        }
    }

    /// Tells the walk `event`. An event that does not answer [`Walk::request`] is
    /// ignored.
    pub fn resume(&mut self, event: Event<H, P, E>)
        requires
            old(self)@.wf(),
        ensures
            final(self)@ == old(self)@.step(event@),
            final(self)@.wf(),
    {
        proof {
            lemma_step_keeps_wf(self@, event@);
            if self.frames@.len() > 0 {
                lemma_node_below(self.frames@);
                assert(step::well_placed(self.frames@, self.frames@.len() - 1));
            }
        }
        let mut task = Task::Enter;
        core::mem::swap(&mut task, &mut self.task);
        match (task, event) {
            (Task::Visit { value, region }, Event::Proceed) => self.visit_raw(value, region),
            (Task::Enter, Event::Answered(answer)) => self.entered(answer),
            (Task::Exit, Event::Answered(answer)) => self.exited(answer),
            (Task::Hook, Event::Hook(attr)) => self.hooked(attr),
            (
                Task::SequenceHeader,
                Event::SequenceHeader { size, null },
            ) => self.visit_sequence(size, null),
            (Task::SequenceCells { size }, Event::SequenceCells(cells)) => {
                if cells.len() == size {
                    self.sequence_cells(cells);
                } else {
                    self.task = Task::SequenceCells { size };
                }
            },
            (Task::MapSize, Event::MapSize(size)) => self.visit_map(size),
            (Task::MapIter { size }, Event::MapIter(iter)) => self.map_iter(size, iter),
            (Task::Key { iter, size, index }, Event::Item(item)) => self.map_key(
                iter,
                size,
                index,
                item,
            ),
            (Task::Value { iter, size, index, key }, Event::Item(item)) => self.map_value(
                iter,
                size,
                index,
                key,
                item,
            ),
            (Task::Next { iter, size, index }, Event::Item(item)) => self.map_advanced(
                iter,
                size,
                index,
                item,
            ),
            (Task::Fields, Event::Fields(fields)) => self.visit_reflected_fields(fields),
            (Task::Getter { field }, Event::Item(item)) => self.field_value(field, item),
            (Task::Return(result), Event::Proceed) => {
                if self.frames.len() == 0 {
                    self.task = Task::Return(result);
                } else {
                    self.hand_over(result);
                }
            },
            (task, _) => {
                self.task = task;
            },
        }
    }

    /// Result of the walk, once it has ended.
    pub fn into_result(self) -> (result: Option<NativeResult<P, E>>)
        ensures
            result == if self@.finished() {
                Some(self@.task->Return_0)
            } else {
                None
            },
    {
        if self.frames.len() != 0 {
            return None;
        }
        match self.task {
            Task::Return(result) => Some(result),
            _ => None,
        }
    }

    /// Whether the walk has ended.
    pub fn is_finished(&self) -> (finished: bool)
        ensures
            finished == self@.finished(),
    {
        if self.frames.len() != 0 {
            return false;
        }
        match &self.task {
            Task::Return(_) => true,
            _ => false,
        }
    }

    fn type_index(&self) -> (type_index: i32)
        requires
            self@.nodes.len() > 0,
        ensures
            type_index == self@.type_index(),
    {
        self.nodes[self.nodes.len() - 1].value.type_index
    }

    fn region(&self) -> (region: DefRegionKind)
        requires
            self@.nodes.len() > 0,
        ensures
            region == self@.region(),
    {
        self.nodes[self.nodes.len() - 1].region
    }

    fn fail(&mut self, fault: Fault)
        ensures
            final(self)@ == old(self)@.fail(fault),
    {
        self.task = Task::Return(Err(NativeHalt::Error(Error::Native(fault))));
    }

    fn raise(&mut self, error: E)
        ensures
            final(self)@ == old(self)@.raise(error),
    {
        self.entries = Vec::new();
        self.task = Task::Return(Err(NativeHalt::Error(Error::Raised(error))));
    }

    fn leave(&mut self, result: NativeResult<P, E>)
        requires
            old(self)@.nodes.len() > 0,
            old(self)@.frames.len() > 0,
        ensures
            final(self)@ == old(self)@.leave(result),
    {
        let _ = self.nodes.pop();
        let _ = self.frames.pop();
        self.task = Task::Return(result);
    }

    fn visit_raw(&mut self, value: VisitValue<H>, region: DefRegionKind)
        ensures
            final(self)@ == old(self)@.visit_raw(value, region),
    {
        if value.is_none() {
            self.task = Task::Return(Ok(()));
        } else {
            self.nodes.push(Node { value, region });
            self.frames.push(Frame::Node);
            self.task = Task::Enter;
        }
    }

    fn visit_child(&mut self, value: VisitValue<H>, place: Place, region: DefRegionKind)
        ensures
            final(self)@ == old(self)@.visit_child(value, place, region),
    {
        self.frames.push(Frame::Within { place });
        self.task = Task::Visit { value, region };
    }

    fn entered(&mut self, answer: Answer<P, E>)
        requires
            old(self)@.nodes.len() > 0,
            old(self)@.frames.len() > 0,
        ensures
            final(self)@ == old(self)@.entered(answer),
    {
        match NativeWalker::settle(answer, self.type_index()) {
            Ok(true) => self.visit_children_raw(),
            Ok(false) => self.leave(Ok(())),
            Err(halt) => self.leave(Err(halt)),
        }
    }

    fn exited(&mut self, answer: Answer<P, E>)
        requires
            old(self)@.nodes.len() > 0,
            old(self)@.frames.len() > 0,
        ensures
            final(self)@ == old(self)@.exited(answer),
    {
        match NativeWalker::settle(answer, self.type_index()) {
            Ok(_) => self.leave(Ok(())),
            Err(halt) => self.leave(Err(halt)),
        }
    }

    fn visit_children_raw(&mut self)
        requires
            old(self)@.nodes.len() > 0,
        ensures
            final(self)@ == old(self)@.visit_children_raw(),
    {
        let type_index: i32 = self.type_index();
        if type_index == TYPE_ARRAY || type_index == TYPE_LIST {
            self.task = Task::SequenceHeader;
        } else if type_index == TYPE_MAP || type_index == TYPE_DICT {
            self.task = Task::MapSize;
        } else if self.walker.structural_visit {
            self.task = Task::Hook;
        } else {
            self.visit_reflected();
        }
    }

    fn hooked(&mut self, attr: Option<i32>)
        requires
            old(self)@.nodes.len() > 0,
        ensures
            final(self)@ == old(self)@.hooked(attr),
    {
        match NativeWalker::reject_foreign_structural_visit(self.type_index(), attr) {
            Err(fault) => self.fail(fault),
            Ok(()) => self.visit_reflected(),
        }
    }

    fn visit_reflected(&mut self)
        requires
            old(self)@.nodes.len() > 0,
        ensures
            final(self)@ == old(self)@.visit_reflected(),
    {
        if self.type_index() < TYPE_STATIC_OBJECT_BEGIN {
            self.task = Task::Return(Ok(()));
        } else {
            self.task = Task::Fields;
        }
    }

    fn visit_sequence(&mut self, size: i64, null: bool)
        ensures
            final(self)@ == old(self)@.visit_sequence(size, null),
    {
        if size < 0 {
            self.fail(Fault::NegativeSequenceSize);
        } else if null && size != 0 {
            self.fail(Fault::NullSequenceData);
        } else if size as u64 > usize::MAX as u64 {
            self.fail(Fault::SequenceSizeOverflow);
        } else if size == 0 {
            self.task = Task::Return(Ok(()));
        } else {
            self.task = Task::SequenceCells { size: size as usize };
        }
    }

    fn sequence_cells(&mut self, cells: Vec<VisitValue<H>>)
        ensures
            final(self)@ == old(self)@.sequence_cells(cells@),
    {
        let ghost all = cells@;
        let ghost below = self@;
        let mut cells = cells;
        self.task = Task::Return(Ok(()));
        assert(step::cell_frames(all, all.len()) == Seq::<Frame<H>>::empty());
        assert(self.frames@ == below.frames + step::cell_frames(all, cells.len() as nat));
        while cells.len() > 0
            invariant
                cells@ == all.take(cells.len() as int),
                cells.len() <= all.len(),
                self@ == (State {
                    frames: below.frames + step::cell_frames(all, cells.len() as nat),
                    task: Task::Return(Ok(())),
                    ..below
                }),
            decreases cells.len(),
        {
            if let Some(value) = cells.pop() {
                let index: usize = cells.len();
                self.frames.push(Frame::Item { value, place: Place::SequenceItem { index } });
                assert(self.frames@ == below.frames + step::cell_frames(all, cells.len() as nat));
            }
        }
    }

    fn visit_map(&mut self, size: Result<i64, E>)
        ensures
            final(self)@ == old(self)@.visit_map(size),
    {
        let size: i64 = match size {
            Ok(size) => size,
            Err(error) => {
                self.raise(error);
                return ;
            },
        };
        if size < 0 {
            self.fail(Fault::NegativeMapSize);
        } else if size as u64 > usize::MAX as u64 {
            self.fail(Fault::MapSizeOverflow);
        } else if size == 0 {
            self.task = Task::Return(Ok(()));
        } else {
            self.task = Task::MapIter { size: size as usize };
        }
    }

    fn map_iter(&mut self, size: usize, iter: Result<H, E>)
        ensures
            final(self)@ == old(self)@.map_iter(size, iter),
    {
        match iter {
            Err(error) => self.raise(error),
            Ok(iter) => {
                self.entries = Vec::new();
                self.task = Task::Key { iter, size, index: 0 };
            },
        }
    }

    fn map_key(
        &mut self,
        iter: H,
        size: usize,
        index: usize,
        item: Result<VisitValue<H>, E>,
    )
        ensures
            final(self)@ == old(self)@.map_key(iter, size, index, item),
    {
        match item {
            Err(error) => self.raise(error),
            Ok(key) => {
                self.task = Task::Value { iter, size, index, key };
            },
        }
    }

    fn map_value(
        &mut self,
        iter: H,
        size: usize,
        index: usize,
        key: VisitValue<H>,
        item: Result<VisitValue<H>, E>,
    )
        requires
            old(self)@.nodes.len() > 0,
            index < size,
        ensures
            final(self)@ == old(self)@.map_value(iter, size, index, key, item),
    {
        let value = match item {
            Err(error) => {
                self.raise(error);
                return ;
            },
            Ok(value) => value,
        };
        if self.type_index() == TYPE_DICT {
            self.entries.push((key, value));
            if index + 1 != size {
                self.task = Task::Next { iter, size, index };
            } else {
                self.visit_entries();
            }
        } else {
            let region: DefRegionKind = self.region();
            self.frames.push(Frame::MapNext { iter, size, index });
            self.frames.push(Frame::Item { value, place: Place::MapValue { index } });
            self.visit_child(key, Place::MapKey { index }, region);
        }
    }

    /// Puts the entries that have been read on the frames.
    fn visit_entries(&mut self)
        ensures
            final(self)@ == (State {
                frames: old(self)@.frames + step::entry_frames(old(self)@.entries, 0),
                entries: Seq::empty(),
                task: Task::Return(Ok(())),
                ..old(self)@
            }),
    {
        let ghost below = self@;
        let ghost all = self.entries@;
        let mut entries: Vec<(VisitValue<H>, VisitValue<H>)> = Vec::new();
        core::mem::swap(&mut entries, &mut self.entries);
        self.task = Task::Return(Ok(()));
        assert(step::entry_frames(all, all.len()) == Seq::<Frame<H>>::empty());
        assert(self.frames@ == below.frames + step::entry_frames(all, entries.len() as nat));
        while entries.len() > 0
            invariant
                entries@ == all.take(entries.len() as int),
                entries.len() <= all.len(),
                self@ == (State {
                    frames: below.frames + step::entry_frames(all, entries.len() as nat),
                    entries: Seq::empty(),
                    task: Task::Return(Ok(())),
                    ..below
                }),
            decreases entries.len(),
        {
            if let Some((key, value)) = entries.pop() {
                let index: usize = entries.len();
                self.frames.push(Frame::Item { value, place: Place::DictValue { index } });
                self.frames.push(Frame::Item { value: key, place: Place::DictKey { index } });
                assert(self.frames@ == below.frames + step::entry_frames(
                    all,
                    entries.len() as nat,
                ));
            }
        }
    }

    fn map_next(&mut self, iter: H, size: usize, index: usize)
        requires
            index < size,
        ensures
            final(self)@ == old(self)@.map_next(iter, size, index),
    {
        if index + 1 != size {
            self.task = Task::Next { iter, size, index };
        } else {
            self.task = Task::Return(Ok(()));
        }
    }

    fn map_advanced(
        &mut self,
        iter: H,
        size: usize,
        index: usize,
        item: Result<VisitValue<H>, E>,
    )
        requires
            index + 1 < size,
        ensures
            final(self)@ == old(self)@.map_advanced(iter, size, index, item),
    {
        match item {
            Err(error) => self.raise(error),
            Ok(_) => {
                self.task = Task::Key { iter, size, index: index + 1 };
            },
        }
    }

    fn visit_reflected_fields(&mut self, fields: Option<Vec<FieldInfo>>)
        requires
            old(self)@.nodes.len() > 0,
        ensures
            fields matches Some(fields) ==> final(self)@ == old(self)@.visit_reflected_fields(
                Some(fields@),
            ),
            fields is None ==> final(self)@ == old(self)@.visit_reflected_fields(None),
    {
        let ghost below = self@;
        let mut fields = match fields {
            None => {
                let type_index: i32 = self.type_index();
                self.fail(Fault::UnregisteredType { type_index });
                return ;
            },
            Some(fields) => fields,
        };
        let ghost all = fields@;
        self.task = Task::Return(Ok(()));
        assert(step::field_frames::<H>(all, all.len()) == Seq::<Frame<H>>::empty());
        assert(self.frames@ == below.frames + step::field_frames::<H>(all, fields.len() as nat));
        while fields.len() > 0
            invariant
                fields@ == all.take(fields.len() as int),
                fields.len() <= all.len(),
                self@ == (State {
                    frames: below.frames + step::field_frames::<H>(all, fields.len() as nat),
                    task: Task::Return(Ok(())),
                    ..below
                }),
            decreases fields.len(),
        {
            if let Some(field) = fields.pop() {
                self.frames.push(Frame::Field { field });
                assert(self.frames@ == below.frames + step::field_frames::<H>(
                    all,
                    fields.len() as nat,
                ));
            }
        }
    }

    fn visit_reflected_field(&mut self, field: FieldInfo)
        ensures
            final(self)@ == old(self)@.visit_reflected_field(field),
    {
        if field.flags & FLAG_SEQ_HASH_IGNORE != 0 {
            self.task = Task::Return(Ok(()));
        } else if field.getter.is_none() {
            self.fail(Fault::MissingGetter { field: field.name });
        } else {
            self.task = Task::Getter { field };
        }
    }

    fn field_value(&mut self, field: FieldInfo, item: Result<VisitValue<H>, E>)
        requires
            old(self)@.nodes.len() > 0,
        ensures
            final(self)@ == old(self)@.field_value(field, item),
    {
        match item {
            Err(error) => {
                let halt = NativeHalt::Error(Error::Raised(error));
                self.task = Task::Return(
                    Err(with_error_context(halt, Place::Field { name: field.name })),
                );
            },
            Ok(child) => {
                let region: DefRegionKind = field_def_region(field.flags, self.region());
                self.visit_child(child, Place::Field { name: field.name }, region);
            },
        }
    }

    /// Hands the result of the current task to the next frame.
    fn hand_over(&mut self, result: NativeResult<P, E>)
        requires
            old(self)@.nodes.len() > 0,
            old(self)@.frames.len() > 0,
            old(self)@.frames.last() matches Frame::MapNext { size, index, .. } ==> index < size,
        ensures
            final(self)@ == old(self)@.resume(result),
    {
        let frame = match self.frames.pop() {
            Some(frame) => frame,
            None => return ,
        };
        match result {
            Ok(()) => match frame {
                Frame::Node => {
                    self.frames.push(Frame::Node);
                    self.task = Task::Exit;
                    assert(self.frames@ == old(self)@.frames);
                },
                Frame::Item { value, place } => {
                    let region: DefRegionKind = self.region();
                    self.visit_child(value, place, region);
                },
                Frame::Within { .. } => {
                    self.task = Task::Return(Ok(()));
                },
                Frame::Field { field } => self.visit_reflected_field(field),
                Frame::MapNext { iter, size, index } => self.map_next(iter, size, index),
            },
            Err(halt) => match frame {
                Frame::Node => {
                    let passed = NativeWalker::with_value_context(halt, self.type_index());
                    let _ = self.nodes.pop();
                    self.task = Task::Return(Err(passed));
                },
                Frame::Within { place } => {
                    self.task = Task::Return(Err(with_error_context(halt, place)));
                },
                _ => {
                    self.task = Task::Return(Err(halt));
                },
            },
        }
    }
}

/// Frames that belong to no value add none.
proof fn lemma_node_frames_add<H>(frames: Seq<Frame<H>>, more: Seq<Frame<H>>)
    requires
        forall|i: int| 0 <= i < more.len() ==> !(#[trigger] more[i] is Node),
    ensures
        step::node_frames(frames + more) == step::node_frames(frames),
    decreases more.len(),
{
    if more.len() == 0 {
        assert(frames + more =~= frames);
    } else {
        let rest = more.drop_last();
        assert(frames + more =~= (frames + rest).push(more[more.len() - 1]));
        lemma_node_frames_add(frames, rest);
        lemma_node_frames_push(frames + rest, more[more.len() - 1]);
    }
}

proof fn lemma_placed_drop<H>(frames: Seq<Frame<H>>)
    requires
        step::all_placed(frames),
        frames.len() > 0,
    ensures
        step::all_placed(frames.drop_last()),
{
    let rest = frames.drop_last();
    assert forall|i: int| 0 <= i < rest.len() implies #[trigger] step::well_placed(rest, i) by {
        assert(step::well_placed(frames, i));
    }
}

proof fn lemma_placed_add<H>(frames: Seq<Frame<H>>, more: Seq<Frame<H>>)
    requires
        step::all_placed(frames),
        forall|i: int| 0 <= i < more.len() ==> !(#[trigger] more[i] is MapNext),
    ensures
        step::all_placed(frames + more),
{
    let all = frames + more;
    assert forall|i: int| 0 <= i < all.len() implies #[trigger] step::well_placed(all, i) by {
        if i < frames.len() {
            assert(step::well_placed(frames, i));
        } else {
            assert(all[i] == more[i - frames.len()]);
        }
    }
}

proof fn lemma_placed_push<H>(frames: Seq<Frame<H>>, frame: Frame<H>)
    requires
        step::all_placed(frames),
        frame matches Frame::MapNext { size, index, .. } ==> index < size && frames.len() > 0
            && frames.last() is Node,
    ensures
        step::all_placed(frames.push(frame)),
{
    let all = frames.push(frame);
    assert forall|i: int| 0 <= i < all.len() implies #[trigger] step::well_placed(all, i) by {
        if i < frames.len() {
            assert(step::well_placed(frames, i));
        }
    }
}

/// Every step keeps the frames and the task of a walk together.
pub proof fn lemma_step_keeps_wf<H, P, E>(state: State<H, P, E>, event: step::EventView<H, P, E>)
    requires
        state.wf(),
    ensures
        state.step(event).wf(),
{
    let frames = state.frames;
    if frames.len() > 0 {
        lemma_node_below(frames);
        lemma_node_frames_push(frames.drop_last(), frames.last());
        lemma_placed_drop(frames);
        assert(step::well_placed(frames, frames.len() - 1));
        assert(frames.drop_last().push(frames.last()) == frames);
        if frames.len() > 1 {
            assert(frames.drop_last()[0] == frames[0]);
        }
    }
    match (state.task, event) {
        (Task::Visit { value, region }, step::EventView::Proceed) => {
            lemma_node_frames_push(frames, Frame::Node);
            lemma_placed_push(frames, Frame::Node);
        },
        (Task::SequenceCells { size }, step::EventView::SequenceCells(cells)) => {
            step::lemma_cell_frames(cells, 0);
            lemma_node_frames_add(frames, step::cell_frames(cells, 0));
            lemma_placed_add(frames, step::cell_frames(cells, 0));
        },
        (
            Task::Value { iter, size, index, key },
            step::EventView::Item(Ok(value)),
        ) => {
            let entries = state.entries.push((key, value));
            step::lemma_entry_frames(entries, 0);
            lemma_node_frames_add(frames, step::entry_frames(entries, 0));
            lemma_placed_add(frames, step::entry_frames(entries, 0));
            let next = Frame::MapNext { iter, size, index };
            let item = Frame::Item { value, place: Place::MapValue { index } };
            let within = Frame::Within { place: Place::MapKey { index } };
            lemma_node_frames_push(frames, next);
            lemma_node_frames_push(frames.push(next), item);
            lemma_node_frames_push(frames.push(next).push(item), within);
            lemma_placed_push(frames, next);
            lemma_placed_push(frames.push(next), item);
            lemma_placed_push(frames.push(next).push(item), within);
        },
        (Task::Fields, step::EventView::Fields(Some(fields))) => {
            step::lemma_field_frames::<H>(fields, 0);
            lemma_node_frames_add(frames, step::field_frames::<H>(fields, 0));
            lemma_placed_add(frames, step::field_frames::<H>(fields, 0));
        },
        (Task::Getter { field }, step::EventView::Item(_)) => {
            let within = Frame::Within { place: Place::Field { name: field.name } };
            lemma_node_frames_push(frames, within);
            lemma_placed_push(frames, within);
        },
        (Task::Return(Ok(())), step::EventView::Proceed) => {
            if frames.len() > 0 {
                if let Frame::Item { value, place } = frames.last() {
                    lemma_node_frames_push(frames.drop_last(), Frame::Within { place });
                    lemma_placed_push(frames.drop_last(), Frame::Within { place });
                }
            }
        },
        _ => {},
    }
}

} // verus!
