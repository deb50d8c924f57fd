//! Walking values held in memory, with typed handlers or with a plain callback.
use vstd::prelude::*;

use crate::agreement;
use crate::agreement::Run;
use crate::error::Error;
use crate::kind::{DefRegionKind, Phase, WalkOrder};
use crate::outcome;
use crate::outcome::{
    absorb, finish, may_visit, or_advance, IntoVisitResult, NativeHalt, NativeResult, VisitOutcome,
    VisitResult, WalkResult,
};
use crate::semantics;
use crate::semantics::Call;
use crate::step::{Answer, Event, NativeWalker, Request};
use crate::tree::{Content, Value};
use crate::value::{FieldInfo, VisitValue};
use crate::walker::Walk;

verus! {

/// Recursive traversal access passed to a typed handler.
///
/// The context contains the walker, not the visitor. A handler lends its
/// current `&mut self` back to [`VisitCtx::visit`], so nested traversal is an
/// ordinary reborrow.
pub struct VisitCtx<P, E> {
    walker: NativeWalker,
    order: WalkOrder,
    def_region_kind: DefRegionKind,
    halted: Option<NativeHalt<P, E>>,
}

impl<P, E> VisitCtx<P, E> {
    pub closed spec fn spec_walker(self) -> NativeWalker {
        self.walker
    }

    pub closed spec fn spec_order(self) -> WalkOrder {
        self.order
    }

    pub closed spec fn spec_region(self) -> DefRegionKind {
        self.def_region_kind
    }

    /// How a visit that was made through this context halted.
    pub closed spec fn spec_halted(self) -> Option<NativeHalt<P, E>> {
        self.halted
    }

    /// Whether this is the context of a value that is visited in `region`, before
    /// its callback has made a visit.
    pub open spec fn is_fresh(
        self,
        walker: NativeWalker,
        order: WalkOrder,
        region: DefRegionKind,
    ) -> bool {
        &&& self.spec_walker() == walker
        &&& self.spec_order() == order
        &&& self.spec_region() == region
        &&& self.spec_halted() is None
    }

    fn new(walker: NativeWalker, order: WalkOrder, def_region_kind: DefRegionKind) -> (ctx: Self)
        ensures
            ctx.is_fresh(walker, order, def_region_kind),
    {
        VisitCtx { walker, order, def_region_kind, halted: None }
    }

    /// Return the definition-region state active at the current node.
    pub fn def_region_kind(&self) -> (region: DefRegionKind)
        ensures
            region == self.spec_region(),
    {
        self.def_region_kind
    }
}

/// Typed dispatch implemented by the visitor object itself.
///
/// `None` asks the walker to continue normally.
pub trait VisitDispatch<'a, P, E>: Sized {
    /// What one run of the handlers can do: from the visitor and the context that
    /// it finds to those that it leaves, and what it answers.
    open spec fn may_dispatch(
        before: Self,
        value: VisitValue<&'a Value<E>>,
        ctx: VisitCtx<P, E>,
        after: Self,
        left: VisitCtx<P, E>,
        answer: Option<VisitResult<P, E>>,
    ) -> bool {
        true
    }

    fn dispatch_visit(
        &mut self,
        value: &VisitValue<&'a Value<E>>,
        ctx: &mut VisitCtx<P, E>,
    ) -> (answer: Option<VisitResult<P, E>>)
        ensures
            Self::may_dispatch(
                *old(self),
                *value,
                *old(ctx),
                *final(self),
                *final(ctx),
                answer,
            ),
    ;
}

/// How the two callbacks of a value reach the code that a walk was given: `S` is
/// the state of that code.
pub trait NativeVisit<'a, S, P, E>: Sized {
    /// Whether the callbacks can be run on this state.
    spec fn ready(&self, state: S) -> bool;

    spec fn spec_order(&self) -> WalkOrder;

    /// What one run of a callback can do.
    spec fn may_call(
        &self,
        phase: Phase,
        before: S,
        value: VisitValue<&'a Value<E>>,
        ctx: VisitCtx<P, E>,
        after: S,
        left: VisitCtx<P, E>,
        result: VisitResult<P, E>,
    ) -> bool;

    fn order(&self) -> (order: WalkOrder)
        ensures
            order == self.spec_order(),
    ;

    fn enter(
        &self,
        state: &mut S,
        value: &VisitValue<&'a Value<E>>,
        ctx: &mut VisitCtx<P, E>,
    ) -> (result: VisitResult<P, E>)
        requires
            self.ready(*old(state)),
        ensures
            self.ready(*final(state)),
            self.may_call(
                Phase::Enter,
                *old(state),
                *value,
                *old(ctx),
                *final(state),
                *final(ctx),
                result,
            ),
    ;

    fn exit(
        &self,
        state: &mut S,
        value: &VisitValue<&'a Value<E>>,
        ctx: &mut VisitCtx<P, E>,
    ) -> (result: VisitResult<P, E>)
        requires
            self.ready(*old(state)),
        ensures
            self.ready(*final(state)),
            self.may_call(
                Phase::Exit,
                *old(state),
                *value,
                *old(ctx),
                *final(state),
                *final(ctx),
                result,
            ),
    ;
}

/// Runs typed handlers once for each value, before or after its children.
#[derive(Clone, Copy)]
pub struct DispatchVisitor {
    pub order: WalkOrder,
}

impl DispatchVisitor {
    /// Whether typed handlers run in this phase.
    pub open spec fn handles(self, phase: Phase) -> bool {
        match self.order {
            WalkOrder::PreOrder => phase == Phase::Enter,
            WalkOrder::PostOrder => phase == Phase::Exit,
        }
    }

    /// Whether typed handlers run in this phase.
    pub fn runs_in(&self, phase: Phase) -> (runs: bool)
        ensures
            runs == self.handles(phase),
    {
        match self.order {
            WalkOrder::PreOrder => phase == Phase::Enter,
            WalkOrder::PostOrder => phase == Phase::Exit,
        }
    }
}

impl DispatchVisitor {
    /// Runs the typed handlers if it is their turn.
    fn dispatch<'a, V: VisitDispatch<'a, P, E>, P, E>(
        &self,
        visitor: &mut V,
        phase: Phase,
        value: &VisitValue<&'a Value<E>>,
        ctx: &mut VisitCtx<P, E>,
    ) -> (result: VisitResult<P, E>)
        ensures
            NativeVisit::<'a, V, P, E>::may_call(
                self,
                phase,
                *old(visitor),
                *value,
                *old(ctx),
                *final(visitor),
                *final(ctx),
                result,
            ),
    {
        if !self.runs_in(phase) {
            return Ok(WalkResult::Advance);
        }
        or_advance(visitor.dispatch_visit(value, ctx))
    }
}

impl<'a, V: VisitDispatch<'a, P, E>, P, E> NativeVisit<'a, V, P, E> for DispatchVisitor {
    open spec fn ready(&self, visitor: V) -> bool {
        true
    }

    open spec fn spec_order(&self) -> WalkOrder {
        self.order
    }

    open spec fn may_call(
        &self,
        phase: Phase,
        before: V,
        value: VisitValue<&'a Value<E>>,
        ctx: VisitCtx<P, E>,
        after: V,
        left: VisitCtx<P, E>,
        result: VisitResult<P, E>,
    ) -> bool {
        if self.handles(phase) {
            exists|answer: Option<VisitResult<P, E>>|
                {
                    &&& #[trigger] V::may_dispatch(before, value, ctx, after, left, answer)
                    &&& result == outcome::answer_or_advance(answer)
                }
        } else {
            &&& after == before
            &&& left == ctx
            &&& result == VisitResult::<P, E>::Ok(WalkResult::Advance)
        }
    }

    fn order(&self) -> (order: WalkOrder) {
        self.order
    }

    fn enter(
        &self,
        visitor: &mut V,
        value: &VisitValue<&'a Value<E>>,
        ctx: &mut VisitCtx<P, E>,
    ) -> (result: VisitResult<P, E>) {
        self.dispatch(visitor, Phase::Enter, value, ctx)
    }

    fn exit(
        &self,
        visitor: &mut V,
        value: &VisitValue<&'a Value<E>>,
        ctx: &mut VisitCtx<P, E>,
    ) -> (result: VisitResult<P, E>) {
        self.dispatch(visitor, Phase::Exit, value, ctx)
    }
}

/// Runs a callback before and after the children of each value.
///
/// What a callback keeps to itself is not part of its value: each run leaves it as
/// it was.
#[derive(Clone, Copy)]
pub struct CallbackVisitor;

impl<'a, F, O, P, E> NativeVisit<'a, F, P, E> for CallbackVisitor where
    F: FnMut(&VisitValue<&'a Value<E>>, Phase, DefRegionKind) -> O,
    O: IntoVisitResult<P, E>,
 {
    open spec fn ready(&self, callback: F) -> bool {
        forall|value: &VisitValue<&'a Value<E>>, phase: Phase, region: DefRegionKind|
            call_requires(callback, (value, phase, region))
    }

    open spec fn spec_order(&self) -> WalkOrder {
        WalkOrder::PreOrder
    }

    open spec fn may_call(
        &self,
        phase: Phase,
        before: F,
        value: VisitValue<&'a Value<E>>,
        ctx: VisitCtx<P, E>,
        after: F,
        left: VisitCtx<P, E>,
        result: VisitResult<P, E>,
    ) -> bool {
        &&& after == before
        &&& left == ctx
        &&& exists|answer: O|
            {
                &&& #[trigger] call_ensures(before, (&value, phase, ctx.spec_region()), answer)
                &&& answer.stands_for(result)
            }
    }

    fn order(&self) -> (order: WalkOrder) {
        WalkOrder::PreOrder
    }

    fn enter(
        &self,
        callback: &mut F,
        value: &VisitValue<&'a Value<E>>,
        ctx: &mut VisitCtx<P, E>,
    ) -> (result: VisitResult<P, E>) {
        callback(value, Phase::Enter, ctx.def_region_kind()).into_visit_result()
    }

    fn exit(
        &self,
        callback: &mut F,
        value: &VisitValue<&'a Value<E>>,
        ctx: &mut VisitCtx<P, E>,
    ) -> (result: VisitResult<P, E>) {
        callback(value, Phase::Exit, ctx.def_region_kind()).into_visit_result()
    }
}

/// Runs a callback that is not told the definition region.
#[derive(Clone, Copy)]
pub struct PhaseVisitor;

impl<'a, F, O, P, E> NativeVisit<'a, F, P, E> for PhaseVisitor where
    F: FnMut(&VisitValue<&'a Value<E>>, Phase) -> O,
    O: IntoVisitResult<P, E>,
 {
    open spec fn ready(&self, callback: F) -> bool {
        forall|value: &VisitValue<&'a Value<E>>, phase: Phase|
            call_requires(callback, (value, phase))
    }

    open spec fn spec_order(&self) -> WalkOrder {
        WalkOrder::PreOrder
    }

    open spec fn may_call(
        &self,
        phase: Phase,
        before: F,
        value: VisitValue<&'a Value<E>>,
        ctx: VisitCtx<P, E>,
        after: F,
        left: VisitCtx<P, E>,
        result: VisitResult<P, E>,
    ) -> bool {
        &&& after == before
        &&& left == ctx
        &&& exists|answer: O|
            {
                &&& #[trigger] call_ensures(before, (&value, phase), answer)
                &&& answer.stands_for(result)
            }
    }

    fn order(&self) -> (order: WalkOrder) {
        WalkOrder::PreOrder
    }

    fn enter(
        &self,
        callback: &mut F,
        value: &VisitValue<&'a Value<E>>,
        ctx: &mut VisitCtx<P, E>,
    ) -> (result: VisitResult<P, E>) {
        callback(value, Phase::Enter).into_visit_result()
    }

    fn exit(
        &self,
        callback: &mut F,
        value: &VisitValue<&'a Value<E>>,
        ctx: &mut VisitCtx<P, E>,
    ) -> (result: VisitResult<P, E>) {
        callback(value, Phase::Exit).into_visit_result()
    }
}

/// One run of a callback: what it found, what it left, and its result.
pub struct Turn<S, P, E> {
    pub before: S,
    pub found: VisitCtx<P, E>,
    pub after: S,
    pub left: VisitCtx<P, E>,
    pub result: VisitResult<P, E>,
}

impl<S, P, E> Turn<S, P, E> {
    /// What the turn answers the walk.
    pub open spec fn answer(self) -> Answer<P, E> {
        Answer { result: self.result, halted: self.left.spec_halted() }
    }

    /// Whether `visitor` can make this turn when `call` is due.
    pub open spec fn answers_call<'a, N: NativeVisit<'a, S, P, E>>(
        self,
        visitor: N,
        walker: NativeWalker,
        call: Call<E>,
    ) -> bool {
        &&& self.found.is_fresh(walker, visitor.spec_order(), call.region)
        &&& visitor.may_call(
            call.phase,
            self.before,
            agreement::cell(&call.value),
            self.found,
            self.after,
            self.left,
            self.result,
        )
    }
}

/// What the turns answer, in order.
pub open spec fn answers_of<S, P, E>(turns: Seq<Turn<S, P, E>>) -> Seq<Answer<P, E>> {
    Seq::new(turns.len(), |i: int| turns[i].answer())
}

/// Whether each turn finds the state that the one before it left, from `before`
/// to `after`.
pub open spec fn linked<S, P, E>(before: S, turns: Seq<Turn<S, P, E>>, after: S) -> bool {
    &&& turns.len() == 0 ==> before == after
    &&& turns.len() > 0 ==> turns[0].before == before && turns.last().after == after
    &&& forall|i: int|
        0 < i < turns.len() ==> (#[trigger] turns[i]).before == turns[i - 1].after
}

/// Whether `turns` are a walk of `value` in `region` that takes the state of the
/// visitor from `before` to `after` and ends with `result`: they are the callbacks
/// that [`semantics::visit`] names for their answers, and no others.
pub open spec fn walked<'a, S, P, E, N: NativeVisit<'a, S, P, E>>(
    visitor: N,
    walker: NativeWalker,
    value: Value<E>,
    region: DefRegionKind,
    before: S,
    turns: Seq<Turn<S, P, E>>,
    after: S,
    result: NativeResult<P, E>,
) -> bool {
    let trip = semantics::visit(walker, value, region, answers_of(turns), 0);
    &&& result == trip.result
    &&& turns.len() == trip.calls.len()
    &&& linked(before, turns, after)
    &&& forall|i: int|
        0 <= i < turns.len() ==> (#[trigger] turns[i]).answers_call(visitor, walker, trip.calls[i])
}

/// Turns that leave the state as they find it all find the first.
proof fn lemma_state_found<S, P, E>(before: S, turns: Seq<Turn<S, P, E>>, after: S, i: int)
    requires
        linked(before, turns, after),
        forall|j: int| 0 <= j < turns.len() ==> (#[trigger] turns[j]).after == turns[j].before,
        0 <= i < turns.len(),
    ensures
        turns[i].before == before,
    decreases i,
{
    if i > 0 {
        assert(turns[i].before == turns[i - 1].after);
        lemma_state_found(before, turns, after, i - 1);
    }
}

/// Turns that leave the state as they find it take it nowhere.
pub proof fn lemma_state_kept<S, P, E>(before: S, turns: Seq<Turn<S, P, E>>, after: S)
    requires
        linked(before, turns, after),
        forall|i: int| 0 <= i < turns.len() ==> (#[trigger] turns[i]).after == turns[i].before,
    ensures
        after == before,
        forall|i: int| 0 <= i < turns.len() ==> (#[trigger] turns[i]).before == before,
{
    assert forall|i: int| 0 <= i < turns.len() implies (#[trigger] turns[i]).before == before by {
        lemma_state_found(before, turns, after, i);
    }
    if turns.len() > 0 {
        assert(turns.last() == turns[turns.len() - 1]);
    }
}

/// A walk with callbacks that leave their state as they find it leaves it so.
proof fn lemma_callback_kept<'a, S, P, E, N: NativeVisit<'a, S, P, E>>(
    visitor: N,
    walker: NativeWalker,
    value: Value<E>,
    region: DefRegionKind,
    before: S,
    after: S,
    result: NativeResult<P, E>,
)
    requires
        exists|turns: Seq<Turn<S, P, E>>| #[trigger]
            walked(visitor, walker, value, region, before, turns, after, result),
        forall|
            phase: Phase,
            found: S,
            value: VisitValue<&'a Value<E>>,
            ctx: VisitCtx<P, E>,
            left_state: S,
            left: VisitCtx<P, E>,
            result: VisitResult<P, E>,
        | #[trigger]
            visitor.may_call(phase, found, value, ctx, left_state, left, result) ==> left_state
                == found,
    ensures
        after == before,
{
    let turns = choose|turns: Seq<Turn<S, P, E>>| #[trigger]
        walked(visitor, walker, value, region, before, turns, after, result);
    let calls = semantics::visit::<P, E>(walker, value, region, answers_of(turns), 0).calls;
    assert forall|i: int| 0 <= i < turns.len() implies (#[trigger] turns[i]).after
        == turns[i].before by {
        assert(turns[i].answers_call(visitor, walker, calls[i]));
    }
    lemma_state_kept(before, turns, after);
}

/// The value as a walk hands it to its callbacks.
fn cell<'a, E>(value: &'a Value<E>) -> (cell: VisitValue<&'a Value<E>>)
    ensures
        cell == agreement::cell(value),
{
    VisitValue::from_raw(value.type_index, value)
}

fn item<'a, E: Copy>(result: &'a Result<Value<E>, E>) -> (item: Result<
    VisitValue<&'a Value<E>>,
    E,
>)
    ensures
        item == agreement::item(*result),
{
    match result {
        Ok(value) => Ok(cell(value)),
        Err(error) => Err(*error),
    }
}

/// The elements of a sequence.
fn read_cells<'a, E>(value: &'a Value<E>) -> (cells: Vec<VisitValue<&'a Value<E>>>)
    ensures
        cells@ == agreement::cells(value.cells()),
{
    let mut cells: Vec<VisitValue<&'a Value<E>>> = Vec::new();
    if let Content::Sequence { cells: Some(values), .. } = &value.content {
        let mut i: usize = 0;
        while i < values.len()
            invariant
                i <= values.len(),
                value.cells() == values@,
                cells@ == agreement::cells(values@.take(i as int)),
            decreases values.len() - i,
        {
            cells.push(cell(&values[i]));
            assert(cells@ =~= agreement::cells(values@.take(i + 1)));
            i = i + 1;
        }
        assert(values@.take(i as int) =~= values@);
    }
    assert(cells@ =~= agreement::cells(value.cells()));
    cells
}

/// The reflected fields of an object.
fn read_fields<E>(value: &Value<E>) -> (fields: Option<Vec<FieldInfo>>)
    ensures
        match value.fields() {
            Some(all) => fields matches Some(infos) && infos@ == agreement::field_infos(all),
            None => fields is None,
        },
{
    if let Content::Object { fields: Some(fields) } = &value.content {
        let mut infos: Vec<FieldInfo> = Vec::new();
        let mut i: usize = 0;
        while i < fields.len()
            invariant
                i <= fields.len(),
                infos@ == agreement::field_infos(fields@.take(i as int)),
            decreases fields.len() - i,
        {
            let field = &fields[i];
            let getter: Option<usize> = match &field.getter {
                Some(_) => Some(i),
                None => None,
            };
            infos.push(FieldInfo { name: field.name.clone(), flags: field.flags, getter });
            assert(infos@ =~= agreement::field_infos(fields@.take(i + 1)));
            i = i + 1;
        }
        assert(fields@.take(i as int) =~= fields@);
        Some(infos)
    } else {
        None
    }
}

/// What the iterator of a map returns.
fn iterate<'a, P, E: Copy>(map: &'a Value<E>, index: usize, command: i64) -> (event: Event<
    &'a Value<E>,
    P,
    E,
>)
    ensures
        event@ == agreement::iterate::<P, E>(map, index, command),
{
    if let Content::Mapping { entries, .. } = &map.content {
        if index < entries.len() {
            let entry = &entries[index];
            return Event::Item(
                if command == 0 {
                    item(&entry.key)
                } else if command == 1 {
                    item(&entry.value)
                } else {
                    match &entry.next {
                        Ok(()) => Ok(cell(map)),
                        Err(error) => Err(*error),
                    }
                },
            );
        }
    }
    Event::Proceed
}

/// What the getter of a reflected field returns.
fn get_field<'a, P, E: Copy>(object: &'a Value<E>, getter: usize) -> (event: Event<
    &'a Value<E>,
    P,
    E,
>)
    ensures
        event@ == agreement::get_field::<P, E>(object, getter),
{
    if let Content::Object { fields: Some(fields) } = &object.content {
        if getter < fields.len() {
            if let Some(result) = &fields[getter].getter {
                return Event::Item(item(result));
            }
        }
    }
    Event::Proceed
}

/// Answers a walk's request out of the value that it asks for, unless it asks for
/// a callback.
fn read<'a, P, E: Copy>(walk: &Walk<&'a Value<E>, P, E>) -> (event: Event<&'a Value<E>, P, E>)
    requires
        walk@.wf(),
    ensures
        !(walk@.task is Enter || walk@.task is Exit) ==> forall|answer: Answer<P, E>|
            event@ == #[trigger] agreement::reply(walk@, answer),
{
    match walk.request() {
        Request::Hook { value } => Event::Hook(value.handle.hook),
        Request::SequenceHeader { value } => match &value.handle.content {
            Content::Sequence { length, cells } => Event::SequenceHeader {
                size: *length,
                null: cells.is_none(),
            },
            _ => Event::SequenceHeader { size: 0, null: true },
        },
        Request::SequenceCells { value, .. } => Event::SequenceCells(read_cells(value.handle)),
        Request::MapSize { value, .. } => match &value.handle.content {
            Content::Mapping { size, .. } => Event::MapSize(*size),
            _ => Event::MapSize(Ok(0)),
        },
        Request::MapIter { value, .. } => match &value.handle.content {
            Content::Mapping { iter: Err(error), .. } => Event::MapIter(Err(*error)),
            _ => Event::MapIter(Ok(value.handle)),
        },
        Request::Iterate { iter, index, command } => iterate(*iter, index, command),
        Request::Fields { value } => Event::Fields(read_fields(value.handle)),
        Request::Getter { value, getter } => get_field(value.handle, getter),
        _ => Event::Proceed,
    }
}

/// Walks `root` in `region` with the callbacks of `visitor`.
fn visit_raw<'a, S, P, E: Copy, N: NativeVisit<'a, S, P, E>>(
    walker: NativeWalker,
    root: &'a Value<E>,
    visitor: &N,
    state: &mut S,
    region: DefRegionKind,
) -> (result: NativeResult<P, E>)
    requires
        root.wf(),
        visitor.ready(*old(state)),
    ensures
        visitor.ready(*final(state)),
        exists|turns: Seq<Turn<S, P, E>>| #[trigger]
            walked(*visitor, walker, *root, region, *old(state), turns, *final(state), result),
{
    let ghost start = Run::<'a, P, E>::start(walker, root, region);
    let ghost mut turns: Seq<Turn<S, P, E>> = Seq::empty();
    let ghost mut n: nat = 0;
    let mut walk: Walk<&'a Value<E>, P, E> = Walk::new(walker, cell(root), region);
    assert(start =~= start.after(answers_of(turns), 0));
    while !walk.is_finished()
        invariant
            root.wf(),
            walk@.wf(),
            visitor.ready(*state),
            start == Run::<'a, P, E>::start(walker, root, region),
            start.after(answers_of(turns), n).state == walk@,
            start.after(answers_of(turns), n).calls.len() == turns.len(),
            linked(*old(state), turns, *state),
            forall|i: int|
                0 <= i < turns.len() ==> (#[trigger] turns[i]).answers_call(
                    *visitor,
                    walker,
                    start.after(answers_of(turns), n).calls[i],
                ),
        decreases agreement::cost(*root) - n,
    {
        let ghost answers = answers_of(turns);
        let ghost run = start.after(answers, n);
        proof {
            agreement::lemma_within_cost::<P, E>(walker, root, region, answers, n);
        }
        let event = match walk.request() {
            Request::Enter { value, region } => {
                let mut ctx = VisitCtx::new(walker, visitor.order(), region);
                let ghost found = ctx;
                let ghost before = *state;
                let result = visitor.enter(state, &cell(value.handle), &mut ctx);
                let ghost turn = Turn { before, found, after: *state, left: ctx, result };
                let halted = ctx.halted.take();
                proof {
                    assert(turn.answers_call(*visitor, walker, run.call(Phase::Enter)));
                    turns = turns.push(turn);
                }
                Event::Answered(Answer { result, halted })
            },
            Request::Exit { value, region } => {
                let mut ctx = VisitCtx::new(walker, visitor.order(), region);
                let ghost found = ctx;
                let ghost before = *state;
                let result = visitor.exit(state, &cell(value.handle), &mut ctx);
                let ghost turn = Turn { before, found, after: *state, left: ctx, result };
                let halted = ctx.halted.take();
                proof {
                    assert(turn.answers_call(*visitor, walker, run.call(Phase::Exit)));
                    turns = turns.push(turn);
                }
                Event::Answered(Answer { result, halted })
            },
            _ => read(&walk),
        };
        proof {
            if walk@.task is Enter || walk@.task is Exit {
                let answer = turns.last().answer();
                assert(answers_of(turns) =~= answers.push(answer));
                agreement::lemma_later_answers(start, answers, answer, n);
                assert(answers_of(turns)[run.calls.len() as int] == answer);
            }
            agreement::lemma_one_more(start, answers_of(turns), n);
            assert(event@ == agreement::reply(
                walk@,
                answers_of(turns)[run.calls.len() as int],
            ));
            n = n + 1;
        }
        walk.resume(event);
    }
    proof {
        agreement::lemma_end_agrees::<P, E>(walker, root, region, answers_of(turns), n);
    }
    let outcome = walk.into_result();
    match outcome {
        Some(result) => {
            assert(walked(
                *visitor,
                walker,
                *root,
                region,
                *old(state),
                turns,
                *state,
                result,
            ));
            result
        },
        None => Ok(()),
    }
}

impl<P, E> VisitCtx<P, E> {
    /// Keeps how a visit halted. Tells whether it went well.
    fn absorb(&mut self, result: NativeResult<P, E>) -> (visited: bool)
        ensures
            visited == (result is Ok),
            final(self).spec_halted() == match result {
                Ok(()) => old(self).spec_halted(),
                Err(halt) => Some(halt),
            },
            final(self).spec_walker() == old(self).spec_walker(),
            final(self).spec_order() == old(self).spec_order(),
            final(self).spec_region() == old(self).spec_region(),
    {
        absorb(&mut self.halted, result)
    }

    /// What a visit of `child` in `region` through the context `before` does: it
    /// walks the child as the walk that the context belongs to would, unless an
    /// earlier visit through this context halted.
    pub open spec fn visited<'a, V: VisitDispatch<'a, P, E>>(
        before: Self,
        visitor: V,
        child: Value<E>,
        region: DefRegionKind,
        after: Self,
        visitor_after: V,
        visited: bool,
    ) -> bool {
        if before.spec_halted() is Some {
            &&& !visited
            &&& after == before
            &&& visitor_after == visitor
        } else {
            &&& after.spec_walker() == before.spec_walker()
            &&& after.spec_order() == before.spec_order()
            &&& after.spec_region() == before.spec_region()
            &&& exists|turns: Seq<Turn<V, P, E>>, result: NativeResult<P, E>|
                {
                    &&& #[trigger] walked(
                        DispatchVisitor { order: before.spec_order() },
                        before.spec_walker(),
                        child,
                        region,
                        visitor,
                        turns,
                        visitor_after,
                        result,
                    )
                    &&& visited == (result is Ok)
                    &&& after.spec_halted() == match result {
                        Ok(()) => None::<NativeHalt<P, E>>,
                        Err(halt) => Some(halt),
                    }
                }
        }
    }
}

impl<P, E: Copy> VisitCtx<P, E> {
    /// Visit `child` immediately with the same typed dispatcher.
    pub fn visit<'a, V: VisitDispatch<'a, P, E>>(
        &mut self,
        visitor: &mut V,
        child: &'a Value<E>,
    ) -> (visited: bool)
        requires
            child.wf(),
        ensures
            Self::visited(
                *old(self),
                *old(visitor),
                *child,
                old(self).spec_region(),
                *final(self),
                *final(visitor),
                visited,
            ),
    {
        let region: DefRegionKind = self.def_region_kind;
        self.visit_with_def_region(visitor, child, region)
    }

    /// Visit `child` under an explicitly selected definition-region state.
    ///
    /// The override is scoped to this recursive call. The current context keeps
    /// its own state after success, error, or interruption.
    pub fn visit_with_def_region<'a, V: VisitDispatch<'a, P, E>>(
        &mut self,
        visitor: &mut V,
        child: &'a Value<E>,
        def_region_kind: DefRegionKind,
    ) -> (visited: bool)
        requires
            child.wf(),
        ensures
            Self::visited(
                *old(self),
                *old(visitor),
                *child,
                def_region_kind,
                *final(self),
                *final(visitor),
                visited,
            ),
    {
        if !may_visit(&self.halted) {
            return false;
        }
        let dispatch = DispatchVisitor { order: self.order };
        let result = visit_raw(self.walker, child, &dispatch, visitor, def_region_kind);
        self.absorb(result)
    }
}

/// Whether a walk of `root` with the callbacks of `visitor` can take their state
/// from `before` to `after` and report `outcome`.
pub open spec fn walk_reports<'a, S, P, E, N: NativeVisit<'a, S, P, E>>(
    visitor: N,
    root: Value<E>,
    before: S,
    after: S,
    outcome: Result<VisitOutcome<P>, Error<E>>,
) -> bool {
    exists|turns: Seq<Turn<S, P, E>>, result: NativeResult<P, E>|
        {
            &&& #[trigger] walked(
                visitor,
                NativeWalker { structural_visit: true },
                root,
                DefRegionKind::Outside,
                before,
                turns,
                after,
                result,
            )
            &&& outcome == outcome::reported(result)
        }
}

/// Visit `root` in pre-order with typed handlers stored in `visitor`.
pub fn structural_visit<'a, V: VisitDispatch<'a, P, E>, P, E: Copy>(
    root: &'a Value<E>,
    visitor: &mut V,
) -> (outcome: Result<VisitOutcome<P>, Error<E>>)
    requires
        root.wf(),
    ensures
        walk_reports(
            DispatchVisitor { order: WalkOrder::PreOrder },
            *root,
            *old(visitor),
            *final(visitor),
            outcome,
        ),
{
    structural_walk(root, visitor, WalkOrder::PreOrder)
}

/// Walk `root` with typed handlers and state stored in `walker`.
///
/// Each matching handler runs once, before or after the value's children
/// according to `order`.
pub fn structural_walk<'a, W: VisitDispatch<'a, P, E>, P, E: Copy>(
    root: &'a Value<E>,
    walker: &mut W,
    order: WalkOrder,
) -> (outcome: Result<VisitOutcome<P>, Error<E>>)
    requires
        root.wf(),
    ensures
        walk_reports(DispatchVisitor { order }, *root, *old(walker), *final(walker), outcome),
{
    let native_walker = NativeWalker::new(true);
    let dispatch = DispatchVisitor { order };
    finish(visit_raw(native_walker, root, &dispatch, walker, DefRegionKind::Outside))
}

/// Pre/post walk used by analyses that need to observe every raw value.
pub fn walk<'a, F, O, P, E: Copy>(root: &'a Value<E>, callback: F) -> (outcome: Result<
    VisitOutcome<P>,
    Error<E>,
>) where F: FnMut(&VisitValue<&'a Value<E>>, Phase) -> O, O: IntoVisitResult<P, E>
    requires
        root.wf(),
        forall|value: &VisitValue<&'a Value<E>>, phase: Phase|
            call_requires(callback, (value, phase)),
    ensures
        walk_reports(PhaseVisitor, *root, callback, callback, outcome),
{
    let native_walker = NativeWalker::new(true);
    let mut state = callback;
    let result = visit_raw(native_walker, root, &PhaseVisitor, &mut state, DefRegionKind::Outside);
    proof {
        lemma_callback_kept(
            PhaseVisitor,
            native_walker,
            *root,
            DefRegionKind::Outside,
            callback,
            state,
            result,
        );
    }
    finish(result)
}

/// Pre/post walk whose callback also receives definition-region state.
pub fn walk_with_context<'a, F, O, P, E: Copy>(root: &'a Value<E>, callback: F) -> (outcome: Result<
    VisitOutcome<P>,
    Error<E>,
>) where
    F: FnMut(&VisitValue<&'a Value<E>>, Phase, DefRegionKind) -> O,
    O: IntoVisitResult<P, E>,

    requires
        root.wf(),
        forall|value: &VisitValue<&'a Value<E>>, phase: Phase, region: DefRegionKind|
            call_requires(callback, (value, phase, region)),
    ensures
        walk_reports(CallbackVisitor, *root, callback, callback, outcome),
{
    let native_walker = NativeWalker::new(true);
    let mut state = callback;
    let result = visit_raw(native_walker, root, &CallbackVisitor, &mut state, DefRegionKind::Outside);
    proof {
        lemma_callback_kept(
            CallbackVisitor,
            native_walker,
            *root,
            DefRegionKind::Outside,
            callback,
            state,
            result,
        );
    }
    finish(result)
}

} // verus!
