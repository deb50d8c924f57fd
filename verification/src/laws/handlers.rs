//! What code runs on which value, and what it finds.
use core::ops::ControlFlow;
use vstd::prelude::*;

use crate::error::Error;
use crate::kind::{DefRegionKind, Phase, WalkOrder};
use crate::outcome::{
    IntoVisitResult, NativeHalt, NativeResult, VisitOutcome, VisitResult, WalkResult,
};
use crate::semantics;
use crate::step::{Answer, NativeWalker};
use crate::tree::Value;
use crate::value::VisitValue;
use crate::visit;
use crate::visit::{
    CallbackVisitor, DispatchVisitor, NativeVisit, PhaseVisitor, Turn, VisitCtx, VisitDispatch,
};

verus! {

/// The turns of a walk are its callbacks, one for one: each finds the state that the one
/// before it left, and a context that belongs to the walk, is in the region of the value
/// and has made no visit; what it answers, and how a visit that it made halted, is what
/// the walk goes by.
pub proof fn law_turns_are_the_callbacks<'a, S, P, E, N: NativeVisit<'a, S, P, E>>(
    visitor: N,
    walker: NativeWalker,
    value: Value<E>,
    region: DefRegionKind,
    before: S,
    turns: Seq<Turn<S, P, E>>,
    after: S,
    result: NativeResult<P, E>,
    i: int,
)
    requires
        visit::walked(visitor, walker, value, region, before, turns, after, result),
    ensures
        ({
            let answers = Seq::new(
                turns.len(),
                |j: int|
                    Answer { result: turns[j].result, halted: turns[j].left.spec_halted() },
            );
            let trip = semantics::visit(walker, value, region, answers, 0);
            &&& result == trip.result
            &&& turns.len() == trip.calls.len()
            &&& visit::answers_of(turns) == answers
            &&& turns.len() == 0 ==> after == before
            &&& 0 <= i < turns.len() ==> {
                &&& turns[i].before == if i == 0 {
                    before
                } else {
                    turns[i - 1].after
                }
                &&& i == turns.len() - 1 ==> turns[i].after == after
                &&& turns[i].found.spec_walker() == walker
                &&& turns[i].found.spec_order() == visitor.spec_order()
                &&& turns[i].found.spec_region() == trip.calls[i].region
                &&& turns[i].found.spec_halted() is None
            }
        }),
{
    let answers = Seq::new(
        turns.len(),
        |j: int| Answer { result: turns[j].result, halted: turns[j].left.spec_halted() },
    );
    assert(visit::answers_of(turns) =~= answers);
    if 0 <= i < turns.len() {
        let trip = semantics::visit::<P, E>(walker, value, region, answers, 0);
        assert(turns[i].answers_call(visitor, walker, trip.calls[i]));
    }
}

/// Typed handlers run on every value, in whatever region it lies: before its children if
/// the order is pre-order, behind them if it is post-order. Their answer counts, and a
/// visitor without a matching handler advances. At the other of the two callbacks nothing
/// runs: visitor and context stay as they are, and the walk goes on.
pub proof fn law_handlers_run_on_every_value<'a, V: VisitDispatch<'a, P, E>, P, E>(
    order: WalkOrder,
    walker: NativeWalker,
    value: Value<E>,
    region: DefRegionKind,
    before: V,
    turns: Seq<Turn<V, P, E>>,
    after: V,
    result: NativeResult<P, E>,
    i: int,
)
    requires
        visit::walked(
            DispatchVisitor { order },
            walker,
            value,
            region,
            before,
            turns,
            after,
            result,
        ),
        0 <= i < turns.len(),
    ensures
        ({
            let turn = turns[i];
            let call = semantics::visit(
                walker,
                value,
                region,
                visit::answers_of(turns),
                0,
            ).calls[i];
            let cell = VisitValue { type_index: call.value.type_index, handle: &call.value };
            &&& turn.found.spec_order() == order
            &&& match (order, call.phase) {
                (WalkOrder::PreOrder, Phase::Enter) | (WalkOrder::PostOrder, Phase::Exit) => {
                    ||| V::may_dispatch(
                        turn.before,
                        cell,
                        turn.found,
                        turn.after,
                        turn.left,
                        Some(turn.result),
                    )
                    ||| turn.result == VisitResult::<P, E>::Ok(WalkResult::Advance)
                        && V::may_dispatch(
                        turn.before,
                        cell,
                        turn.found,
                        turn.after,
                        turn.left,
                        None,
                    )
                },
                _ => {
                    &&& turn.after == turn.before
                    &&& turn.left == turn.found
                    &&& turn.result == VisitResult::<P, E>::Ok(WalkResult::Advance)
                },
            }
        }),
{
    let trip = semantics::visit::<P, E>(walker, value, region, visit::answers_of(turns), 0);
    assert(turns[i].answers_call(DispatchVisitor { order }, walker, trip.calls[i]));
}

/// A callback runs on every value, once before its children and once behind them, and its
/// answer counts.
pub proof fn law_callback_runs_on_every_value<'a, F, O, P, E>(
    walker: NativeWalker,
    value: Value<E>,
    region: DefRegionKind,
    callback: F,
    turns: Seq<Turn<F, P, E>>,
    result: NativeResult<P, E>,
    i: int,
) where F: FnMut(&VisitValue<&'a Value<E>>, Phase) -> O, O: IntoVisitResult<P, E>
    requires
        visit::walked(PhaseVisitor, walker, value, region, callback, turns, callback, result),
        0 <= i < turns.len(),
    ensures
        ({
            let turn = turns[i];
            let call = semantics::visit(
                walker,
                value,
                region,
                visit::answers_of(turns),
                0,
            ).calls[i];
            let cell = VisitValue { type_index: call.value.type_index, handle: &call.value };
            &&& turn.left == turn.found
            &&& exists|answer: O|
                {
                    &&& #[trigger] call_ensures(callback, (&cell, call.phase), answer)
                    &&& answer.stands_for(turn.result)
                }
        }),
{
    let calls = semantics::visit::<P, E>(walker, value, region, visit::answers_of(turns), 0).calls;
    assert forall|j: int| 0 <= j < turns.len() implies (#[trigger] turns[j]).after
        == turns[j].before by {
        assert(turns[j].answers_call(PhaseVisitor, walker, calls[j]));
    }
    visit::lemma_state_kept(callback, turns, callback);
    assert(turns[i].answers_call(PhaseVisitor, walker, calls[i]));
}

/// A callback that is told the region runs on every value, once before its children and
/// once behind them, is told the region in which the value is visited, and its answer
/// counts.
pub proof fn law_callback_is_told_the_region<'a, F, O, P, E>(
    walker: NativeWalker,
    value: Value<E>,
    region: DefRegionKind,
    callback: F,
    turns: Seq<Turn<F, P, E>>,
    result: NativeResult<P, E>,
    i: int,
) where F: FnMut(&VisitValue<&'a Value<E>>, Phase, DefRegionKind) -> O, O: IntoVisitResult<P, E>
    requires
        visit::walked(CallbackVisitor, walker, value, region, callback, turns, callback, result),
        0 <= i < turns.len(),
    ensures
        ({
            let turn = turns[i];
            let call = semantics::visit(
                walker,
                value,
                region,
                visit::answers_of(turns),
                0,
            ).calls[i];
            let cell = VisitValue { type_index: call.value.type_index, handle: &call.value };
            &&& turn.left == turn.found
            &&& exists|answer: O|
                {
                    &&& #[trigger] call_ensures(callback, (&cell, call.phase, call.region), answer)
                    &&& answer.stands_for(turn.result)
                }
        }),
{
    let calls = semantics::visit::<P, E>(walker, value, region, visit::answers_of(turns), 0).calls;
    assert forall|j: int| 0 <= j < turns.len() implies (#[trigger] turns[j]).after
        == turns[j].before by {
        assert(turns[j].answers_call(CallbackVisitor, walker, calls[j]));
    }
    visit::lemma_state_kept(callback, turns, callback);
    assert(turns[i].answers_call(CallbackVisitor, walker, calls[i]));
}

/// An infallible answer stands for itself, and so does a fallible one.
pub proof fn law_answers_stand_for_themselves<P, E>(
    flow: WalkResult<P>,
    answer: VisitResult<P, E>,
    result: VisitResult<P, E>,
)
    ensures
        flow.stands_for(result) <==> result == VisitResult::<P, E>::Ok(flow),
        answer.stands_for(result) <==> result == answer,
{
}

/// A walk that is begun from outside visits its root outside of any definition region and
/// looks at hooks. The caller is told that the whole walk was made, the payload of the
/// interruption, or the error.
pub proof fn law_walks_begin_outside<'a, S, P, E, N: NativeVisit<'a, S, P, E>>(
    visitor: N,
    root: Value<E>,
    before: S,
    after: S,
    outcome: Result<VisitOutcome<P>, Error<E>>,
) -> (turns: Seq<Turn<S, P, E>>)
    requires
        visit::walk_reports(visitor, root, before, after, outcome),
    ensures
        visit::walked(
            visitor,
            NativeWalker { structural_visit: true },
            root,
            DefRegionKind::Outside,
            before,
            turns,
            after,
            match outcome {
                Ok(ControlFlow::Continue(())) => NativeResult::<P, E>::Ok(()),
                Ok(ControlFlow::Break(payload)) => NativeResult::<P, E>::Err(
                    NativeHalt::Interrupt(payload),
                ),
                Err(error) => NativeResult::<P, E>::Err(NativeHalt::Error(error)),
            },
        ),
{
    let (turns, result) = choose|turns: Seq<Turn<S, P, E>>, result: NativeResult<P, E>|
        {
            &&& #[trigger] visit::walked(
                visitor,
                NativeWalker { structural_visit: true },
                root,
                DefRegionKind::Outside,
                before,
                turns,
                after,
                result,
            )
            &&& outcome == crate::outcome::reported(result)
        };
    turns
}

/// A visit through a context is a walk of the child, in the order of the walk that the
/// context belongs to and in the region that was asked for. It tells whether the walk
/// went well, keeps its halt if it did not, and changes nothing else of the context. Once
/// a visit has halted, the context visits nothing.
pub proof fn law_nested_visit_is_a_walk<'a, V: VisitDispatch<'a, P, E>, P, E>(
    ctx: VisitCtx<P, E>,
    visitor: V,
    child: Value<E>,
    region: DefRegionKind,
    left: VisitCtx<P, E>,
    after: V,
    visited: bool,
) -> (turns: Seq<Turn<V, P, E>>)
    requires
        VisitCtx::<P, E>::visited(ctx, visitor, child, region, left, after, visited),
    ensures
        left.spec_walker() == ctx.spec_walker(),
        left.spec_order() == ctx.spec_order(),
        left.spec_region() == ctx.spec_region(),
        ctx.spec_halted() is Some ==> !visited && left == ctx && after == visitor,
        ctx.spec_halted() is None ==> {
            &&& visited == (left.spec_halted() is None)
            &&& visit::walked(
                DispatchVisitor { order: ctx.spec_order() },
                ctx.spec_walker(),
                child,
                region,
                visitor,
                turns,
                after,
                match left.spec_halted() {
                    None => NativeResult::<P, E>::Ok(()),
                    Some(halt) => NativeResult::<P, E>::Err(halt),
                },
            )
        },
{
    if ctx.spec_halted() is None {
        let (turns, result) = choose|turns: Seq<Turn<V, P, E>>, result: NativeResult<P, E>|
            {
                &&& #[trigger] visit::walked(
                    DispatchVisitor { order: ctx.spec_order() },
                    ctx.spec_walker(),
                    child,
                    region,
                    visitor,
                    turns,
                    after,
                    result,
                )
                &&& visited == (result is Ok)
                &&& left.spec_halted() == match result {
                    Ok(()) => None::<NativeHalt<P, E>>,
                    Err(halt) => Some(halt),
                }
            };
        turns
    } else {
        Seq::empty()
    }
}

} // verus!
