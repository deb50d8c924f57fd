//! What a walk reports where a value cannot be walked, and how it is worded.
use std::ops::ControlFlow;

use tirx_ext::error::{Error, ErrorKind, Fault, Place};
use tirx_ext::kind::WalkOrder;
use tirx_ext::outcome::{VisitOutcome, VisitResult, WalkResult};
use tirx_ext::tree::{Content, Entry, Field, Value};
use tirx_ext::value::VisitValue;
use tirx_ext::visit::{structural_walk, VisitCtx, VisitDispatch};

const NODE: i32 = 130;

struct Seen {
    order: Vec<u64>,
    skip_at: Option<u64>,
}

impl<'a> VisitDispatch<'a, (), u32> for Seen {
    fn dispatch_visit(
        &mut self,
        value: &VisitValue<&'a Value<u32>>,
        _ctx: &mut VisitCtx<(), u32>,
    ) -> Option<VisitResult<(), u32>> {
        self.order.push(value.handle.data);
        if self.skip_at == Some(value.handle.data) {
            return Some(Ok(WalkResult::Skip));
        }
        None
    }
}

fn run(root: &Value<u32>) -> (Result<VisitOutcome<()>, Error<u32>>, Vec<u64>) {
    let mut seen = Seen { order: Vec::new(), skip_at: None };
    let outcome = structural_walk(root, &mut seen, WalkOrder::PreOrder);
    (outcome, seen.order)
}

fn number(data: u64) -> Value<u32> {
    Value { type_index: 1, data, hook: None, content: Content::Inline }
}

fn value(type_index: i32, data: u64, content: Content<u32>) -> Value<u32> {
    Value { type_index, data, hook: None, content }
}

fn entry(key: u64, item: u64) -> Entry<u32> {
    Entry { key: Ok(number(key)), value: Ok(number(item)), next: Ok(()) }
}

fn within(place: Place, source: Error<u32>) -> Error<u32> {
    Error::Within { place, source: Box::new(source) }
}

fn in_object(type_index: i32, source: Error<u32>) -> Error<u32> {
    within(Place::Object { type_index }, source)
}

#[test]
fn negative_sequence_size_is_reported() {
    for type_index in [71, 75] {
        let root = value(type_index, 1, Content::Sequence { length: -1, cells: Some(vec![]) });
        let (outcome, seen) = run(&root);
        assert_eq!(outcome, Err(in_object(type_index, Error::Native(Fault::NegativeSequenceSize))));
        assert_eq!(seen, vec![1]);
    }
}

#[test]
fn negative_size_goes_before_null_data() {
    let root = value(71, 1, Content::Sequence { length: -1, cells: None });
    assert_eq!(run(&root).0, Err(in_object(71, Error::Native(Fault::NegativeSequenceSize))));
}

#[test]
fn null_sequence_data_is_reported() {
    let root = value(75, 1, Content::Sequence { length: 2, cells: None });
    let (outcome, seen) = run(&root);
    assert_eq!(outcome, Err(in_object(75, Error::Native(Fault::NullSequenceData))));
    assert_eq!(seen, vec![1]);
}

#[test]
fn empty_sequence_needs_no_data() {
    let root = value(71, 1, Content::Sequence { length: 0, cells: None });
    assert_eq!(run(&root), (Ok(ControlFlow::Continue(())), vec![1]));
}

#[test]
fn negative_map_size_is_reported() {
    for type_index in [72, 76] {
        let root = value(
            type_index,
            1,
            Content::Mapping { size: Ok(-3), iter: Ok(()), entries: vec![] },
        );
        assert_eq!(run(&root).0, Err(in_object(type_index, Error::Native(Fault::NegativeMapSize))));
    }
}

#[test]
fn raised_map_size_is_reported() {
    let root = value(72, 1, Content::Mapping { size: Err(9), iter: Ok(()), entries: vec![] });
    assert_eq!(run(&root).0, Err(in_object(72, Error::Raised(9))));
}

#[test]
fn empty_map_needs_no_iterator() {
    let root = value(72, 1, Content::Mapping { size: Ok(0), iter: Err(9), entries: vec![] });
    assert_eq!(run(&root), (Ok(ControlFlow::Continue(())), vec![1]));
}

#[test]
fn raised_iterator_is_reported() {
    let root =
        value(76, 1, Content::Mapping { size: Ok(1), iter: Err(9), entries: vec![entry(2, 3)] });
    assert_eq!(run(&root), (Err(in_object(76, Error::Raised(9))), vec![1]));
}

fn broken(type_index: i32, last: Entry<u32>) -> Value<u32> {
    value(
        type_index,
        1,
        Content::Mapping { size: Ok(2), iter: Ok(()), entries: vec![entry(2, 3), last] },
    )
}

#[test]
fn map_is_visited_up_to_an_unreadable_key() {
    let last = Entry { key: Err(8), value: Ok(number(5)), next: Ok(()) };
    assert_eq!(run(&broken(72, last)), (Err(in_object(72, Error::Raised(8))), vec![1, 2, 3]));
}

#[test]
fn map_is_visited_up_to_an_unreadable_value() {
    let last = Entry { key: Ok(number(4)), value: Err(8), next: Ok(()) };
    assert_eq!(run(&broken(72, last)), (Err(in_object(72, Error::Raised(8))), vec![1, 2, 3]));
}

#[test]
fn dict_with_an_unreadable_entry_is_not_visited() {
    let key = Entry { key: Err(8), value: Ok(number(5)), next: Ok(()) };
    assert_eq!(run(&broken(76, key)), (Err(in_object(76, Error::Raised(8))), vec![1]));
    let item = Entry { key: Ok(number(4)), value: Err(8), next: Ok(()) };
    assert_eq!(run(&broken(76, item)), (Err(in_object(76, Error::Raised(8))), vec![1]));
}

#[test]
fn iterator_that_cannot_move_is_reported() {
    let first = Entry { key: Ok(number(2)), value: Ok(number(3)), next: Err(6) };
    let root = value(
        72,
        1,
        Content::Mapping { size: Ok(2), iter: Ok(()), entries: vec![first, entry(4, 5)] },
    );
    assert_eq!(run(&root), (Err(in_object(72, Error::Raised(6))), vec![1, 2, 3]));
    let first = Entry { key: Ok(number(2)), value: Ok(number(3)), next: Err(6) };
    let root = value(
        76,
        1,
        Content::Mapping { size: Ok(2), iter: Ok(()), entries: vec![first, entry(4, 5)] },
    );
    assert_eq!(run(&root), (Err(in_object(76, Error::Raised(6))), vec![1]));
}

#[test]
fn iterator_is_not_moved_behind_the_last_entry() {
    for type_index in [72, 76] {
        let only = Entry { key: Ok(number(2)), value: Ok(number(3)), next: Err(6) };
        let root = value(
            type_index,
            1,
            Content::Mapping { size: Ok(1), iter: Ok(()), entries: vec![only] },
        );
        assert_eq!(run(&root), (Ok(ControlFlow::Continue(())), vec![1, 2, 3]));
    }
}

#[test]
fn unregistered_type_is_reported() {
    let root = value(200, 1, Content::Object { fields: None });
    assert_eq!(
        run(&root).0,
        Err(in_object(200, Error::Native(Fault::UnregisteredType { type_index: 200 })))
    );
}

fn with_field(field: Field<u32>) -> Value<u32> {
    value(NODE, 1, Content::Object { fields: Some(vec![field]) })
}

#[test]
fn missing_getter_is_reported() {
    let root = with_field(Field { name: "body".to_string(), flags: 0, getter: None });
    assert_eq!(
        run(&root).0,
        Err(in_object(NODE, Error::Native(Fault::MissingGetter { field: "body".to_string() })))
    );
}

#[test]
fn ignored_field_needs_no_getter() {
    let root = with_field(Field { name: "span".to_string(), flags: 8, getter: None });
    assert_eq!(run(&root), (Ok(ControlFlow::Continue(())), vec![1]));
}

#[test]
fn raised_getter_names_its_field() {
    let root = with_field(Field { name: "body".to_string(), flags: 0, getter: Some(Err(5)) });
    assert_eq!(
        run(&root).0,
        Err(in_object(NODE, within(Place::Field { name: "body".to_string() }, Error::Raised(5))))
    );
}

fn hooked(type_index: i32, hook: i32) -> Value<u32> {
    let content = if type_index < 64 {
        Content::Inline
    } else {
        Content::Object {
            fields: Some(vec![Field {
                name: "body".to_string(),
                flags: 0,
                getter: Some(Ok(number(2))),
            }]),
        }
    };
    Value { type_index, data: 1, hook: Some(hook), content }
}

#[test]
fn foreign_hook_is_refused() {
    for hook in [4, 68] {
        let (outcome, seen) = run(&hooked(NODE, hook));
        assert_eq!(
            outcome,
            Err(in_object(NODE, Error::Native(Fault::ForeignHook { type_index: NODE })))
        );
        assert_eq!(seen, vec![1]);
    }
}

#[test]
fn foreign_hook_of_an_inline_type_is_refused() {
    let (outcome, seen) = run(&hooked(6, 4));
    assert_eq!(outcome, Err(Error::Native(Fault::ForeignHook { type_index: 6 })));
    assert_eq!(seen, vec![1]);
}

#[test]
fn handler_takes_over_a_hooked_value_by_skipping_it() {
    let root = hooked(NODE, 68);
    let mut seen = Seen { order: Vec::new(), skip_at: Some(1) };
    assert_eq!(
        structural_walk(&root, &mut seen, WalkOrder::PreOrder),
        Ok(ControlFlow::Continue(()))
    );
    assert_eq!(seen.order, vec![1]);
}

#[test]
fn hooked_value_is_refused_in_post_order() {
    let root = hooked(NODE, 68);
    let mut seen = Seen { order: Vec::new(), skip_at: Some(1) };
    assert_eq!(
        structural_walk(&root, &mut seen, WalkOrder::PostOrder),
        Err(in_object(NODE, Error::Native(Fault::ForeignHook { type_index: NODE })))
    );
    assert!(seen.order.is_empty());
}

#[test]
fn deep_hooked_value_is_refused_in_post_order() {
    let cells = vec![number(7), hooked(NODE, 68), number(8)];
    let inner = value(71, 5, Content::Sequence { length: 3, cells: Some(cells) });
    let root = value(75, 6, Content::Sequence { length: 1, cells: Some(vec![inner]) });
    let mut seen = Seen { order: Vec::new(), skip_at: None };
    let fault = Error::Native(Fault::ForeignHook { type_index: NODE });
    assert_eq!(
        structural_walk(&root, &mut seen, WalkOrder::PostOrder),
        Err(in_object(
            75,
            within(
                Place::SequenceItem { index: 0 },
                in_object(71, within(Place::SequenceItem { index: 1 }, in_object(NODE, fault)))
            )
        ))
    );
    assert_eq!(seen.order, vec![7]);
}

#[test]
fn none_hook_is_no_hook() {
    assert_eq!(run(&hooked(NODE, 0)), (Ok(ControlFlow::Continue(())), vec![1, 2]));
}

#[test]
fn invalid_hook_is_reported() {
    assert_eq!(run(&hooked(NODE, 1)).0, Err(in_object(NODE, Error::Native(Fault::InvalidHook))));
}

#[test]
fn containers_are_walked_whatever_their_hook() {
    let root = Value {
        type_index: 71,
        data: 1,
        hook: Some(68),
        content: Content::Sequence { length: 1, cells: Some(vec![number(2)]) },
    };
    assert_eq!(run(&root), (Ok(ControlFlow::Continue(())), vec![1, 2]));
}

#[test]
fn fault_messages() {
    let cases: Vec<(Fault, &str)> = vec![
        (Fault::NegativeSequenceSize, "native visitor: sequence reports a negative size"),
        (Fault::NullSequenceData, "native visitor: non-empty sequence has a null data pointer"),
        (Fault::SequenceSizeOverflow, "native visitor: sequence size does not fit usize"),
        (Fault::NegativeMapSize, "native visitor: map reports a negative size"),
        (Fault::MapSizeOverflow, "native visitor: map size does not fit usize"),
        (
            Fault::UnregisteredType { type_index: 1205 },
            "native visitor: unregistered type index 1205",
        ),
        (
            Fault::MissingGetter { field: "body".to_string() },
            "native visitor: reflected field `body` has no getter",
        ),
        (
            Fault::ForeignHook { type_index: 64 },
            "native visitor: type `tirx.Node` registers foreign `__s_visit__`; \
             use a matching pre-order Rust handler, visit its children through \
             `VisitCtx`, and return `WalkResult::Skip`",
        ),
        (
            Fault::ForeignHook { type_index: -7 },
            "native visitor: type index -7 registers foreign `__s_visit__`; \
             use a matching pre-order Rust handler, visit its children through \
             `VisitCtx`, and return `WalkResult::Skip`",
        ),
        (Fault::InvalidHook, "__s_visit__ must be an opaque function pointer or ffi.Function"),
    ];
    for (fault, message) in cases {
        assert_eq!(fault.message("tirx.Node"), message);
    }
}

#[test]
fn fault_kinds() {
    assert_eq!(Fault::InvalidHook.kind(), ErrorKind::Type);
    assert_eq!(Fault::ForeignHook { type_index: 70 }.kind(), ErrorKind::Runtime);
    assert_eq!(Fault::NegativeMapSize.kind(), ErrorKind::Runtime);
    assert_eq!(ErrorKind::Type.as_str(), "TypeError");
    assert_eq!(ErrorKind::Runtime.as_str(), "RuntimeError");
}

#[test]
fn faults_that_need_a_type_key() {
    assert_eq!(Fault::ForeignHook { type_index: 64 }.keyed_type(), Some(64));
    assert_eq!(Fault::ForeignHook { type_index: 63 }.keyed_type(), None);
    assert_eq!(Fault::UnregisteredType { type_index: 80 }.keyed_type(), None);
}

#[test]
fn place_frames() {
    let cases: Vec<(Place, &str)> = vec![
        (Place::Object { type_index: 130 }, "object `tirx.Node`"),
        (Place::Field { name: "body".to_string() }, "field `body`"),
        (Place::SequenceItem { index: 0 }, "sequence item [0]"),
        (Place::DictKey { index: 10 }, "dict key [10]"),
        (Place::DictValue { index: 21 }, "dict value [21]"),
        (Place::MapKey { index: 305 }, "map key [305]"),
        (Place::MapValue { index: 18446744073709551615 }, "map value [18446744073709551615]"),
    ];
    for (place, text) in cases {
        assert_eq!(place.frame("tirx.Node"), format!("[native structural visit] {}\n", text));
    }
    assert_eq!(Place::Object { type_index: 130 }.keyed_type(), Some(130));
    assert_eq!(Place::MapKey { index: 3 }.keyed_type(), None);
}

#[test]
fn place_is_added_behind_the_others() {
    let error: Error<u32> = Error::Raised(1).within(Place::SequenceItem { index: 4 });
    assert_eq!(error, within(Place::SequenceItem { index: 4 }, Error::Raised(1)));
}
