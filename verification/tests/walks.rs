//! Walks over values held in memory: order, control flow, nested visits, regions.
use std::ops::ControlFlow;

use tirx_ext::error::{Error, Place};
use tirx_ext::kind::{DefRegionKind, Phase, WalkOrder};
use tirx_ext::outcome::{VisitResult, WalkResult};
use tirx_ext::tree::{Content, Entry, Field, Value};
use tirx_ext::value::VisitValue;
use tirx_ext::visit::{
    structural_visit, structural_walk, walk, walk_with_context, VisitCtx, VisitDispatch,
};

/// Type index of an object with reflected fields.
const NODE: i32 = 130;

fn number(data: u64) -> Value<u32> {
    Value { type_index: 1, data, hook: None, content: Content::Inline }
}

fn nothing() -> Value<u32> {
    Value { type_index: 0, data: 0, hook: None, content: Content::Inline }
}

fn sequence(type_index: i32, data: u64, cells: Vec<Value<u32>>) -> Value<u32> {
    Value {
        type_index,
        data,
        hook: None,
        content: Content::Sequence { length: cells.len() as i64, cells: Some(cells) },
    }
}

fn array(data: u64, cells: Vec<Value<u32>>) -> Value<u32> {
    sequence(71, data, cells)
}

fn mapping(type_index: i32, data: u64, pairs: Vec<(Value<u32>, Value<u32>)>) -> Value<u32> {
    let entries: Vec<Entry<u32>> = pairs
        .into_iter()
        .map(|(key, value)| Entry { key: Ok(key), value: Ok(value), next: Ok(()) })
        .collect();
    Value {
        type_index,
        data,
        hook: None,
        content: Content::Mapping { size: Ok(entries.len() as i64), iter: Ok(()), entries },
    }
}

fn field(name: &str, flags: i64, value: Value<u32>) -> Field<u32> {
    Field { name: name.to_string(), flags, getter: Some(Ok(value)) }
}

fn object(data: u64, fields: Vec<Field<u32>>) -> Value<u32> {
    Value { type_index: NODE, data, hook: None, content: Content::Object { fields: Some(fields) } }
}

/// A tree with every sort of container.
fn forest() -> Value<u32> {
    object(
        1,
        vec![
            field("items", 0, array(2, vec![number(3), nothing(), number(4)])),
            field("list", 0, sequence(75, 5, vec![number(6)])),
            field("map", 0, mapping(72, 7, vec![(number(8), number(9)), (number(10), number(11))])),
            field("dict", 0, mapping(76, 12, vec![(number(13), array(14, vec![number(15)]))])),
            field("hidden", 8, number(99)),
            field("empty", 0, array(16, vec![])),
        ],
    )
}

/// Runs a list of answers: what to do on which value.
struct Recorder {
    seen: Vec<u64>,
    regions: Vec<DefRegionKind>,
    stop_at: Option<u64>,
    payload: Option<u64>,
    skip_at: Option<u64>,
    fail_at: Option<u64>,
}

impl Recorder {
    fn new() -> Recorder {
        Recorder {
            seen: Vec::new(),
            regions: Vec::new(),
            stop_at: None,
            payload: None,
            skip_at: None,
            fail_at: None,
        }
    }
}

impl<'a> VisitDispatch<'a, u64, u32> for Recorder {
    fn dispatch_visit(
        &mut self,
        value: &VisitValue<&'a Value<u32>>,
        ctx: &mut VisitCtx<u64, u32>,
    ) -> Option<VisitResult<u64, u32>> {
        let data = value.handle.data;
        self.seen.push(data);
        self.regions.push(ctx.def_region_kind());
        if self.fail_at == Some(data) {
            return Some(Err(Error::Raised(77)));
        }
        if self.stop_at == Some(data) {
            return Some(Ok(match self.payload {
                Some(payload) => WalkResult::InterruptWith(payload),
                None => WalkResult::Interrupt,
            }));
        }
        if self.skip_at == Some(data) {
            return Some(Ok(WalkResult::Skip));
        }
        None
    }
}

fn within(place: Place, source: Error<u32>) -> Error<u32> {
    Error::Within { place, source: Box::new(source) }
}

#[test]
fn pre_order_visits_parents_first() {
    let root = array(1, vec![number(2), array(3, vec![number(4)]), number(5)]);
    let mut visitor = Recorder::new();
    let outcome = structural_visit(&root, &mut visitor);
    assert_eq!(outcome, Ok(ControlFlow::Continue(())));
    assert_eq!(visitor.seen, vec![1, 2, 3, 4, 5]);
}

#[test]
fn post_order_visits_parents_last() {
    let root = array(1, vec![number(2), array(3, vec![number(4)]), number(5)]);
    let mut visitor = Recorder::new();
    let outcome = structural_walk(&root, &mut visitor, WalkOrder::PostOrder);
    assert_eq!(outcome, Ok(ControlFlow::Continue(())));
    assert_eq!(visitor.seen, vec![2, 4, 3, 5, 1]);
}

#[test]
fn whole_graph_is_seen_once_in_pre_order() {
    let root = forest();
    let mut visitor = Recorder::new();
    let outcome = structural_walk(&root, &mut visitor, WalkOrder::PreOrder);
    assert_eq!(outcome, Ok(ControlFlow::Continue(())));
    assert_eq!(visitor.seen, (1..=16).collect::<Vec<u64>>());
}

#[test]
fn whole_graph_is_seen_once_in_post_order() {
    let root = forest();
    let mut visitor = Recorder::new();
    let outcome = structural_walk(&root, &mut visitor, WalkOrder::PostOrder);
    assert_eq!(outcome, Ok(ControlFlow::Continue(())));
    assert_eq!(visitor.seen, vec![3, 4, 2, 6, 5, 8, 9, 10, 11, 7, 13, 15, 14, 12, 16, 1]);
}

#[test]
fn none_root_is_not_visited() {
    let root = nothing();
    let mut visitor = Recorder::new();
    assert_eq!(structural_visit(&root, &mut visitor), Ok(ControlFlow::Continue(())));
    assert!(visitor.seen.is_empty());
}

#[test]
fn none_elements_are_not_visited() {
    let root = array(1, vec![nothing(), number(2), nothing()]);
    let mut visitor = Recorder::new();
    assert_eq!(structural_visit(&root, &mut visitor), Ok(ControlFlow::Continue(())));
    assert_eq!(visitor.seen, vec![1, 2]);
}

#[test]
fn ignored_fields_are_left_out() {
    let root = object(1, vec![field("a", 8, number(2)), field("b", 8 + 16, number(3)), field("c", 0, number(4))]);
    let mut visitor = Recorder::new();
    assert_eq!(structural_visit(&root, &mut visitor), Ok(ControlFlow::Continue(())));
    assert_eq!(visitor.seen, vec![1, 4]);
}

#[test]
fn skip_leaves_out_children_and_exit() {
    let root = array(1, vec![array(2, vec![number(3)]), number(4)]);
    let mut log: Vec<(u64, Phase)> = Vec::new();
    let outcome = walk::<_, WalkResult<u64>, u64, u32>(&root, |value, phase| {
        log.push((value.handle.data, phase));
        if value.handle.data == 2 {
            WalkResult::Skip
        } else {
            WalkResult::Advance
        }
    });
    assert_eq!(outcome, Ok(ControlFlow::Continue(())));
    assert_eq!(
        log,
        vec![(1, Phase::Enter), (2, Phase::Enter), (4, Phase::Enter), (4, Phase::Exit), (1, Phase::Exit)]
    );
}

#[test]
fn skip_on_exit_is_advance() {
    let root = array(1, vec![array(2, vec![number(3)]), number(4)]);
    let mut log: Vec<u64> = Vec::new();
    let outcome = walk::<_, WalkResult<u64>, u64, u32>(&root, |value, phase| {
        log.push(value.handle.data);
        match phase {
            Phase::Enter => WalkResult::Advance,
            Phase::Exit => WalkResult::Skip,
        }
    });
    assert_eq!(outcome, Ok(ControlFlow::Continue(())));
    assert_eq!(log, vec![1, 2, 3, 3, 2, 4, 4, 1]);
}

#[test]
fn skip_in_post_order_skips_nothing() {
    let root = array(1, vec![array(2, vec![number(3)]), number(4)]);
    let mut visitor = Recorder::new();
    visitor.skip_at = Some(2);
    let outcome = structural_walk(&root, &mut visitor, WalkOrder::PostOrder);
    assert_eq!(outcome, Ok(ControlFlow::Continue(())));
    assert_eq!(visitor.seen, vec![3, 2, 4, 1]);
}

#[test]
fn skip_in_pre_order_leaves_out_children() {
    let root = array(1, vec![array(2, vec![number(3)]), number(4)]);
    let mut visitor = Recorder::new();
    visitor.skip_at = Some(2);
    let outcome = structural_visit(&root, &mut visitor);
    assert_eq!(outcome, Ok(ControlFlow::Continue(())));
    assert_eq!(visitor.seen, vec![1, 2, 4]);
}

#[test]
fn interrupt_ends_the_walk_without_payload() {
    let root = forest();
    let mut visitor = Recorder::new();
    visitor.stop_at = Some(9);
    assert_eq!(structural_visit(&root, &mut visitor), Ok(ControlFlow::Break(None)));
    assert_eq!(visitor.seen, (1..=9).collect::<Vec<u64>>());
}

#[test]
fn interrupt_with_returns_the_payload() {
    let root = forest();
    let mut visitor = Recorder::new();
    visitor.stop_at = Some(15);
    visitor.payload = Some(5);
    assert_eq!(
        structural_walk(&root, &mut visitor, WalkOrder::PostOrder),
        Ok(ControlFlow::Break(Some(5)))
    );
    assert_eq!(visitor.seen, vec![3, 4, 2, 6, 5, 8, 9, 10, 11, 7, 13, 15]);
}

#[test]
fn interrupt_on_exit_ends_the_walk() {
    let root = array(1, vec![number(2), number(3)]);
    let mut count: u32 = 0;
    let outcome = walk::<_, WalkResult<u64>, u64, u32>(&root, |value, phase| {
        count += 1;
        if value.handle.data == 2 && phase == Phase::Exit {
            WalkResult::InterruptWith(8)
        } else {
            WalkResult::Advance
        }
    });
    assert_eq!(outcome, Ok(ControlFlow::Break(Some(8))));
    assert_eq!(count, 3);
}

#[test]
fn handler_error_names_its_path() {
    let root = forest();
    let mut visitor = Recorder::new();
    visitor.fail_at = Some(15);
    let error = structural_visit(&root, &mut visitor);
    let expected = within(
        Place::Object { type_index: NODE },
        within(
            Place::Field { name: "dict".to_string() },
            within(
                Place::Object { type_index: 76 },
                within(
                    Place::DictValue { index: 0 },
                    within(
                        Place::Object { type_index: 71 },
                        within(Place::SequenceItem { index: 0 }, Error::Raised(77)),
                    ),
                ),
            ),
        ),
    );
    assert_eq!(error, Err(expected));
    assert_eq!(visitor.seen.last(), Some(&15));
}

#[test]
fn handler_error_on_an_object_names_the_object() {
    let root = array(1, vec![number(2)]);
    let mut visitor = Recorder::new();
    visitor.fail_at = Some(1);
    assert_eq!(
        structural_visit(&root, &mut visitor),
        Err(within(Place::Object { type_index: 71 }, Error::Raised(77)))
    );
    assert_eq!(visitor.seen, vec![1]);
}

#[test]
fn map_key_and_value_errors_name_their_entry() {
    let root = mapping(72, 1, vec![(number(2), number(3)), (number(4), number(5))]);
    let mut visitor = Recorder::new();
    visitor.fail_at = Some(4);
    assert_eq!(
        structural_visit(&root, &mut visitor),
        Err(within(
            Place::Object { type_index: 72 },
            within(Place::MapKey { index: 1 }, Error::Raised(77))
        ))
    );
    let mut visitor = Recorder::new();
    visitor.fail_at = Some(5);
    assert_eq!(
        structural_visit(&root, &mut visitor),
        Err(within(
            Place::Object { type_index: 72 },
            within(Place::MapValue { index: 1 }, Error::Raised(77))
        ))
    );
}

#[test]
fn dict_key_errors_name_their_entry() {
    let root = mapping(76, 1, vec![(number(2), number(3))]);
    let mut visitor = Recorder::new();
    visitor.fail_at = Some(2);
    assert_eq!(
        structural_visit(&root, &mut visitor),
        Err(within(
            Place::Object { type_index: 76 },
            within(Place::DictKey { index: 0 }, Error::Raised(77))
        ))
    );
}

#[test]
fn walk_sees_each_value_twice() {
    let root = array(1, vec![number(2)]);
    let mut log: Vec<(u64, Phase)> = Vec::new();
    let outcome = walk::<_, VisitResult<u64, u32>, u64, u32>(&root, |value, phase| {
        log.push((value.handle.data, phase));
        Ok(WalkResult::Advance)
    });
    assert_eq!(outcome, Ok(ControlFlow::Continue(())));
    assert_eq!(
        log,
        vec![(1, Phase::Enter), (2, Phase::Enter), (2, Phase::Exit), (1, Phase::Exit)]
    );
}

#[test]
fn fallible_callback_ends_the_walk_with_its_error() {
    let root = array(1, vec![number(2), number(3)]);
    let mut count: u32 = 0;
    let outcome = walk::<_, VisitResult<u64, u32>, u64, u32>(&root, |value, _phase| {
        count += 1;
        if value.handle.data == 2 {
            Err(Error::Raised(6))
        } else {
            Ok(WalkResult::Advance)
        }
    });
    assert_eq!(
        outcome,
        Err(within(
            Place::Object { type_index: 71 },
            within(Place::SequenceItem { index: 0 }, Error::Raised(6))
        ))
    );
    assert_eq!(count, 2);
}

#[test]
fn flagged_fields_set_the_region_for_all_below() {
    let root = object(
        1,
        vec![
            field("args", 16, array(2, vec![number(3)])),
            field("body", 0, number(4)),
            field("var", 4096, object(5, vec![field("type", 0, number(6)), field("inner", 16, number(7))])),
            field("both", 4096 + 16, number(8)),
            field("tail", 0, number(9)),
        ],
    );
    let mut log: Vec<(u64, DefRegionKind)> = Vec::new();
    let outcome =
        walk_with_context::<_, WalkResult<u64>, u64, u32>(&root, |value, phase, region| {
            if phase == Phase::Enter {
                log.push((value.handle.data, region));
            }
            WalkResult::Advance
        });
    assert_eq!(outcome, Ok(ControlFlow::Continue(())));
    assert_eq!(
        log,
        vec![
            (1, DefRegionKind::Outside),
            (2, DefRegionKind::Recursive),
            (3, DefRegionKind::Recursive),
            (4, DefRegionKind::Outside),
            (5, DefRegionKind::NonRecursive),
            (6, DefRegionKind::NonRecursive),
            (7, DefRegionKind::Recursive),
            (8, DefRegionKind::NonRecursive),
            (9, DefRegionKind::Outside),
        ]
    );
}

#[test]
fn exit_runs_in_the_region_of_enter() {
    let root = object(1, vec![field("args", 16, array(2, vec![number(3)]))]);
    let mut log: Vec<(u64, DefRegionKind)> = Vec::new();
    let outcome =
        walk_with_context::<_, WalkResult<u64>, u64, u32>(&root, |value, phase, region| {
            if phase == Phase::Exit {
                log.push((value.handle.data, region));
            }
            WalkResult::Advance
        });
    assert_eq!(outcome, Ok(ControlFlow::Continue(())));
    assert_eq!(
        log,
        vec![
            (3, DefRegionKind::Recursive),
            (2, DefRegionKind::Recursive),
            (1, DefRegionKind::Outside),
        ]
    );
}

#[test]
fn walks_without_flags_stay_outside() {
    let root = forest();
    let mut visitor = Recorder::new();
    assert_eq!(structural_visit(&root, &mut visitor), Ok(ControlFlow::Continue(())));
    assert!(visitor.regions.iter().all(|region| *region == DefRegionKind::Outside));
}

/// Visits the fields of an object by itself, last one first, each in a region of
/// its own choice, and skips what the walk would do.
struct Reverser {
    seen: Vec<(u64, DefRegionKind)>,
    visited: Vec<bool>,
    own: DefRegionKind,
    fail_at: Option<u64>,
    stop_at: Option<u64>,
    swallow: bool,
}

impl Reverser {
    fn new(own: DefRegionKind) -> Reverser {
        Reverser {
            seen: Vec::new(),
            visited: Vec::new(),
            own,
            fail_at: None,
            stop_at: None,
            swallow: false,
        }
    }
}

impl<'a> VisitDispatch<'a, u64, u32> for Reverser {
    fn dispatch_visit(
        &mut self,
        value: &VisitValue<&'a Value<u32>>,
        ctx: &mut VisitCtx<u64, u32>,
    ) -> Option<VisitResult<u64, u32>> {
        let data = value.handle.data;
        self.seen.push((data, ctx.def_region_kind()));
        if self.fail_at == Some(data) {
            return Some(Err(Error::Raised(4)));
        }
        if self.stop_at == Some(data) {
            return Some(Ok(WalkResult::InterruptWith(data)));
        }
        if let Content::Object { fields: Some(fields) } = &value.handle.content {
            for (index, field) in fields.iter().enumerate().rev() {
                if let Some(Ok(child)) = &field.getter {
                    let visited = if index % 2 == 0 {
                        ctx.visit(self, child)
                    } else {
                        ctx.visit_with_def_region(self, child, self.own)
                    };
                    self.visited.push(visited);
                }
            }
            if self.swallow {
                return Some(Ok(WalkResult::Advance));
            }
            return Some(Ok(WalkResult::Skip));
        }
        None
    }
}

fn nested() -> Value<u32> {
    array(
        1,
        vec![
            object(
                2,
                vec![
                    field("a", 0, number(3)),
                    field("b", 0, array(4, vec![number(5)])),
                    field("c", 0, number(6)),
                ],
            ),
            number(7),
        ],
    )
}

#[test]
fn handler_visits_children_through_its_context() {
    let root = nested();
    let mut visitor = Reverser::new(DefRegionKind::Recursive);
    assert_eq!(structural_visit(&root, &mut visitor), Ok(ControlFlow::Continue(())));
    assert_eq!(
        visitor.seen,
        vec![
            (1, DefRegionKind::Outside),
            (2, DefRegionKind::Outside),
            (6, DefRegionKind::Outside),
            (4, DefRegionKind::Recursive),
            (5, DefRegionKind::Recursive),
            (3, DefRegionKind::Outside),
            (7, DefRegionKind::Outside),
        ]
    );
    assert_eq!(visitor.visited, vec![true, true, true]);
}

#[test]
fn context_keeps_its_region_behind_an_override() {
    let mut log = RegionLog { inside: Vec::new(), between: Vec::new() };
    let root = object(1, vec![field("a", 0, number(2)), field("b", 0, number(3))]);
    assert_eq!(structural_visit(&root, &mut log), Ok(ControlFlow::Continue(())));
    assert_eq!(
        log.inside,
        vec![
            (1, DefRegionKind::Outside),
            (2, DefRegionKind::NonRecursive),
            (3, DefRegionKind::NonRecursive),
        ]
    );
    assert_eq!(log.between, vec![DefRegionKind::Outside, DefRegionKind::Outside]);
}

/// Visits fields in a region of its own and looks at its context behind each.
struct RegionLog {
    inside: Vec<(u64, DefRegionKind)>,
    between: Vec<DefRegionKind>,
}

impl<'a> VisitDispatch<'a, u64, u32> for RegionLog {
    fn dispatch_visit(
        &mut self,
        value: &VisitValue<&'a Value<u32>>,
        ctx: &mut VisitCtx<u64, u32>,
    ) -> Option<VisitResult<u64, u32>> {
        self.inside.push((value.handle.data, ctx.def_region_kind()));
        if let Content::Object { fields: Some(fields) } = &value.handle.content {
            for field in fields {
                if let Some(Ok(child)) = &field.getter {
                    ctx.visit_with_def_region(self, child, DefRegionKind::NonRecursive);
                    self.between.push(ctx.def_region_kind());
                }
            }
            return Some(Ok(WalkResult::Skip));
        }
        None
    }
}

#[test]
fn halted_context_visits_nothing_more() {
    let root = nested();
    let mut visitor = Reverser::new(DefRegionKind::Recursive);
    visitor.fail_at = Some(5);
    assert_eq!(
        structural_visit(&root, &mut visitor),
        Err(within(
            Place::Object { type_index: 71 },
            within(
                Place::SequenceItem { index: 0 },
                within(
                    Place::Object { type_index: NODE },
                    within(
                        Place::Object { type_index: 71 },
                        within(Place::SequenceItem { index: 0 }, Error::Raised(4))
                    )
                )
            )
        ))
    );
    assert_eq!(visitor.visited, vec![true, false, false]);
    let seen: Vec<u64> = visitor.seen.iter().map(|(data, _)| *data).collect();
    assert_eq!(seen, vec![1, 2, 6, 4, 5]);
}

#[test]
fn nested_interruption_reaches_the_caller() {
    let root = nested();
    let mut visitor = Reverser::new(DefRegionKind::Outside);
    visitor.stop_at = Some(4);
    assert_eq!(structural_visit(&root, &mut visitor), Ok(ControlFlow::Break(Some(4))));
    assert_eq!(visitor.visited, vec![true, false, false]);
}

#[test]
fn nested_halt_goes_before_the_answer() {
    let root = nested();
    let mut visitor = Reverser::new(DefRegionKind::Outside);
    visitor.stop_at = Some(6);
    visitor.swallow = true;
    assert_eq!(structural_visit(&root, &mut visitor), Ok(ControlFlow::Break(Some(6))));
    let seen: Vec<u64> = visitor.seen.iter().map(|(data, _)| *data).collect();
    assert_eq!(seen, vec![1, 2, 6]);
}

/// Fails itself after a visit that it made has halted.
struct Complainer;

impl<'a> VisitDispatch<'a, u64, u32> for Complainer {
    fn dispatch_visit(
        &mut self,
        value: &VisitValue<&'a Value<u32>>,
        ctx: &mut VisitCtx<u64, u32>,
    ) -> Option<VisitResult<u64, u32>> {
        if let Content::Object { fields: Some(fields) } = &value.handle.content {
            if let Some(Ok(child)) = &fields[0].getter {
                ctx.visit(self, child);
            }
            return Some(Err(Error::Raised(1)));
        }
        Some(Ok(WalkResult::Interrupt))
    }
}

#[test]
fn handler_error_goes_before_a_nested_halt() {
    let root = object(1, vec![field("a", 0, number(2))]);
    assert_eq!(
        structural_visit::<_, u64, u32>(&root, &mut Complainer),
        Err(within(Place::Object { type_index: NODE }, Error::Raised(1)))
    );
}

#[test]
fn nested_visit_in_post_order_runs_handlers_behind_children() {
    let root = nested();
    let mut visitor = Reverser::new(DefRegionKind::Recursive);
    assert_eq!(
        structural_walk(&root, &mut visitor, WalkOrder::PostOrder),
        Ok(ControlFlow::Continue(()))
    );
    let seen: Vec<u64> = visitor.seen.iter().map(|(data, _)| *data).collect();
    // The fields are visited by the walk, and once more by the handler behind it.
    assert_eq!(seen, vec![3, 5, 4, 6, 2, 6, 5, 4, 3, 7, 1]);
}

/// The calls that a callback sees which only advances.
fn calls(root: &Value<u32>) -> Vec<(u64, Phase)> {
    let mut log: Vec<(u64, Phase)> = Vec::new();
    let outcome = walk::<_, WalkResult<u64>, u64, u32>(root, |value, phase| {
        log.push((value.handle.data, phase));
        WalkResult::Advance
    });
    assert_eq!(outcome, Ok(ControlFlow::Continue(())));
    log
}

#[test]
fn walk_of_an_array_is_the_walks_of_its_items() {
    let items = || vec![forest(), nothing(), number(20), array(21, vec![number(22)])];
    let mut expected = vec![(50, Phase::Enter)];
    for item in items() {
        expected.extend(calls(&item));
    }
    expected.push((50, Phase::Exit));
    assert_eq!(calls(&array(50, items())), expected);
    assert_eq!(calls(&sequence(75, 50, items())), expected);
}
