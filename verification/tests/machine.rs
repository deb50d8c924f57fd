//! A walk that is driven by hand, as a runtime drives it.
use tirx_ext::error::{Error, Fault, Place};
use tirx_ext::kind::DefRegionKind;
use tirx_ext::outcome::{NativeHalt, NativeResult, WalkResult};
use tirx_ext::step::{Answer, Event, NativeWalker, Request};
use tirx_ext::value::{FieldInfo, VisitValue};
use tirx_ext::walker::Walk;

type Driven = Walk<u32, u64, u8>;

fn start(structural_visit: bool, type_index: i32, handle: u32) -> Driven {
    Walk::new(
        NativeWalker::new(structural_visit),
        VisitValue::from_raw(type_index, handle),
        DefRegionKind::Outside,
    )
}

/// Takes the walk to the next thing that it asks for.
fn proceed(walk: &mut Driven) {
    while matches!(walk.request(), Request::Proceed) {
        walk.resume(Event::Proceed);
    }
}

fn answer(walk: &mut Driven, flow: WalkResult<u64>) {
    walk.resume(Event::Answered(Answer { result: Ok(flow), halted: None }));
    proceed(walk);
}

fn item(walk: &mut Driven, type_index: i32, handle: u32) {
    walk.resume(Event::Item(Ok(VisitValue::from_raw(type_index, handle))));
    proceed(walk);
}

/// Handle, region and phase of the callback that is due.
fn due(walk: &Driven) -> (u32, DefRegionKind, bool) {
    match walk.request() {
        Request::Enter { value, region } => (value.handle, region, true),
        Request::Exit { value, region } => (value.handle, region, false),
        _ => panic!("no callback is due"),
    }
}

fn end(walk: Driven) -> NativeResult<u64, u8> {
    assert!(walk.is_finished());
    assert!(matches!(walk.request(), Request::Finished));
    walk.into_result().unwrap()
}

#[test]
fn none_needs_nothing() {
    let mut walk = start(true, 0, 1);
    assert!(!walk.is_finished());
    walk.resume(Event::Proceed);
    assert_eq!(end(walk), Ok(()));
}

#[test]
fn unfinished_walk_has_no_result() {
    let walk = start(true, 1, 1);
    assert_eq!(walk.into_result(), None);
}

#[test]
fn inline_value_asks_for_its_hook() {
    let mut walk = start(true, 1, 5);
    proceed(&mut walk);
    assert_eq!(due(&walk), (5, DefRegionKind::Outside, true));
    answer(&mut walk, WalkResult::Advance);
    assert!(matches!(walk.request(), Request::Hook { value } if value.handle == 5));
    walk.resume(Event::Hook(None));
    proceed(&mut walk);
    assert_eq!(due(&walk), (5, DefRegionKind::Outside, false));
    answer(&mut walk, WalkResult::Advance);
    assert_eq!(end(walk), Ok(()));
}

#[test]
fn no_hook_is_asked_for_where_no_type_has_one() {
    let mut walk = start(false, 1, 5);
    proceed(&mut walk);
    answer(&mut walk, WalkResult::Advance);
    assert_eq!(due(&walk), (5, DefRegionKind::Outside, false));
}

#[test]
fn event_that_answers_nothing_is_ignored() {
    let mut walk = start(true, 1, 5);
    proceed(&mut walk);
    walk.resume(Event::Proceed);
    walk.resume(Event::Hook(Some(68)));
    walk.resume(Event::MapSize(Err(1)));
    assert_eq!(due(&walk), (5, DefRegionKind::Outside, true));
    answer(&mut walk, WalkResult::Interrupt);
    assert_eq!(end(walk), Err(NativeHalt::Interrupt(None)));
}

#[test]
fn list_elements_are_owned_by_the_walk() {
    for (type_index, owned) in [(71, false), (75, true)] {
        let mut walk = start(true, type_index, 1);
        proceed(&mut walk);
        answer(&mut walk, WalkResult::Advance);
        assert!(matches!(walk.request(), Request::SequenceHeader { value } if value.handle == 1));
        walk.resume(Event::SequenceHeader { size: 2, null: false });
        assert!(matches!(
            walk.request(),
            Request::SequenceCells { value, size: 2, snapshot } if value.handle == 1 && snapshot == owned
        ));
        // Too few elements are no answer.
        walk.resume(Event::SequenceCells(vec![VisitValue::from_raw(1, 9)]));
        assert!(matches!(walk.request(), Request::SequenceCells { .. }));
        walk.resume(Event::SequenceCells(vec![
            VisitValue::from_raw(1, 2),
            VisitValue::from_raw(1, 3),
        ]));
        proceed(&mut walk);
        assert_eq!(due(&walk), (2, DefRegionKind::Outside, true));
        answer(&mut walk, WalkResult::Skip);
        assert_eq!(due(&walk), (3, DefRegionKind::Outside, true));
        answer(&mut walk, WalkResult::Skip);
        assert_eq!(due(&walk), (1, DefRegionKind::Outside, false));
        answer(&mut walk, WalkResult::Advance);
        assert_eq!(end(walk), Ok(()));
    }
}

/// What an iterator is asked for, and where it stands.
fn asked(walk: &Driven) -> (u32, usize, i64) {
    match walk.request() {
        Request::Iterate { iter, index, command } => (*iter, index, command),
        _ => panic!("the iterator is not asked"),
    }
}

#[test]
fn map_entries_are_read_one_by_one() {
    let mut walk = start(true, 72, 1);
    proceed(&mut walk);
    answer(&mut walk, WalkResult::Advance);
    assert!(matches!(walk.request(), Request::MapSize { function: "ffi.MapSize", .. }));
    walk.resume(Event::MapSize(Ok(2)));
    assert!(matches!(
        walk.request(),
        Request::MapIter { function: "ffi.MapForwardIterFunctor", .. }
    ));
    walk.resume(Event::MapIter(Ok(40)));
    assert_eq!(asked(&walk), (40, 0, 0));
    item(&mut walk, 1, 2);
    assert_eq!(asked(&walk), (40, 0, 1));
    item(&mut walk, 1, 3);
    assert_eq!(due(&walk), (2, DefRegionKind::Outside, true));
    answer(&mut walk, WalkResult::Skip);
    assert_eq!(due(&walk), (3, DefRegionKind::Outside, true));
    answer(&mut walk, WalkResult::Skip);
    assert_eq!(asked(&walk), (40, 0, 2));
    item(&mut walk, 0, 0);
    assert_eq!(asked(&walk), (40, 1, 0));
    item(&mut walk, 1, 4);
    assert_eq!(asked(&walk), (40, 1, 1));
    item(&mut walk, 1, 5);
    assert_eq!(due(&walk), (4, DefRegionKind::Outside, true));
    answer(&mut walk, WalkResult::Skip);
    assert_eq!(due(&walk), (5, DefRegionKind::Outside, true));
    answer(&mut walk, WalkResult::Skip);
    assert_eq!(due(&walk), (1, DefRegionKind::Outside, false));
}

#[test]
fn dict_entries_are_read_before_the_first_callback() {
    let mut walk = start(true, 76, 1);
    proceed(&mut walk);
    answer(&mut walk, WalkResult::Advance);
    assert!(matches!(walk.request(), Request::MapSize { function: "ffi.DictSize", .. }));
    walk.resume(Event::MapSize(Ok(2)));
    assert!(matches!(
        walk.request(),
        Request::MapIter { function: "ffi.DictForwardIterFunctor", .. }
    ));
    walk.resume(Event::MapIter(Ok(40)));
    let mut commands: Vec<(u32, usize, i64)> = Vec::new();
    for handle in [2, 3, 0, 4, 5] {
        commands.push(asked(&walk));
        item(&mut walk, if handle == 0 { 0 } else { 1 }, handle);
    }
    assert_eq!(commands, vec![(40, 0, 0), (40, 0, 1), (40, 0, 2), (40, 1, 0), (40, 1, 1)]);
    for handle in [2, 3, 4, 5] {
        assert_eq!(due(&walk), (handle, DefRegionKind::Outside, true));
        answer(&mut walk, WalkResult::Skip);
    }
    assert_eq!(due(&walk), (1, DefRegionKind::Outside, false));
}

#[test]
fn raised_error_passes_its_place() {
    let mut walk = start(true, 130, 1);
    proceed(&mut walk);
    answer(&mut walk, WalkResult::Advance);
    walk.resume(Event::Hook(Some(0)));
    assert!(matches!(walk.request(), Request::Fields { value } if value.handle == 1));
    walk.resume(Event::Fields(Some(vec![
        FieldInfo { name: "skipped".to_string(), flags: 8, getter: None },
        FieldInfo { name: "args".to_string(), flags: 16, getter: Some(3) },
        FieldInfo { name: "body".to_string(), flags: 0, getter: Some(7) },
    ])));
    proceed(&mut walk);
    assert!(matches!(walk.request(), Request::Getter { value, getter: 3 } if value.handle == 1));
    item(&mut walk, 1, 2);
    assert_eq!(due(&walk), (2, DefRegionKind::Recursive, true));
    answer(&mut walk, WalkResult::Skip);
    assert!(matches!(walk.request(), Request::Getter { getter: 7, .. }));
    walk.resume(Event::Item(Err(11)));
    proceed(&mut walk);
    assert_eq!(
        end(walk),
        Err(NativeHalt::Error(Error::Within {
            place: Place::Object { type_index: 130 },
            source: Box::new(Error::Within {
                place: Place::Field { name: "body".to_string() },
                source: Box::new(Error::Raised(11)),
            }),
        }))
    );
}

#[test]
fn unregistered_type_ends_the_walk() {
    let mut walk = start(false, 130, 1);
    proceed(&mut walk);
    answer(&mut walk, WalkResult::Advance);
    walk.resume(Event::Fields(None));
    proceed(&mut walk);
    assert_eq!(
        end(walk),
        Err(NativeHalt::Error(Error::Within {
            place: Place::Object { type_index: 130 },
            source: Box::new(Error::Native(Fault::UnregisteredType { type_index: 130 })),
        }))
    );
}

#[test]
fn nested_halt_of_a_callback_ends_the_walk() {
    let mut walk = start(true, 71, 1);
    proceed(&mut walk);
    walk.resume(Event::Answered(Answer {
        result: Ok(WalkResult::Skip),
        halted: Some(NativeHalt::Error(Error::Raised(2))),
    }));
    proceed(&mut walk);
    assert_eq!(
        end(walk),
        Err(NativeHalt::Error(Error::Within {
            place: Place::Object { type_index: 71 },
            source: Box::new(Error::Raised(2)),
        }))
    );
}

/// Tells the walk what a runtime would tell of a container that has changed.
fn disturb(walk: &mut Driven) {
    walk.resume(Event::SequenceHeader { size: 5, null: false });
    walk.resume(Event::SequenceCells(vec![VisitValue::from_raw(1, 77)]));
    walk.resume(Event::MapSize(Ok(0)));
    walk.resume(Event::MapIter(Ok(78)));
    walk.resume(Event::Item(Ok(VisitValue::from_raw(1, 79))));
    walk.resume(Event::Fields(None));
}

#[test]
fn list_that_changes_is_visited_as_it_was_read() {
    let mut walk = start(false, 75, 1);
    proceed(&mut walk);
    answer(&mut walk, WalkResult::Advance);
    walk.resume(Event::SequenceHeader { size: 3, null: false });
    walk.resume(Event::SequenceCells(vec![
        VisitValue::from_raw(1, 2),
        VisitValue::from_raw(0, 0),
        VisitValue::from_raw(1, 3),
    ]));
    proceed(&mut walk);
    let mut visited: Vec<(u32, bool)> = Vec::new();
    for _ in 0..4 {
        disturb(&mut walk);
        let (handle, _, enter) = due(&walk);
        visited.push((handle, enter));
        answer(&mut walk, WalkResult::Advance);
        disturb(&mut walk);
    }
    assert_eq!(visited, vec![(2, true), (2, false), (3, true), (3, false)]);
    assert_eq!(due(&walk), (1, DefRegionKind::Outside, false));
    answer(&mut walk, WalkResult::Advance);
    assert_eq!(end(walk), Ok(()));
}

#[test]
fn dict_that_changes_is_visited_as_it_was_read() {
    let mut walk = start(false, 76, 1);
    proceed(&mut walk);
    answer(&mut walk, WalkResult::Advance);
    walk.resume(Event::MapSize(Ok(2)));
    walk.resume(Event::MapIter(Ok(40)));
    for handle in [2, 3, 0, 4, 5] {
        item(&mut walk, 1, handle);
    }
    for handle in [2, 3, 4, 5] {
        disturb(&mut walk);
        assert_eq!(due(&walk), (handle, DefRegionKind::Outside, true));
        answer(&mut walk, WalkResult::Skip);
        disturb(&mut walk);
    }
    assert_eq!(due(&walk), (1, DefRegionKind::Outside, false));
}

#[test]
fn halted_list_is_visited_up_to_the_halt() {
    let mut walk = start(false, 75, 1);
    proceed(&mut walk);
    answer(&mut walk, WalkResult::Advance);
    walk.resume(Event::SequenceHeader { size: 2, null: false });
    walk.resume(Event::SequenceCells(vec![
        VisitValue::from_raw(1, 2),
        VisitValue::from_raw(1, 3),
    ]));
    proceed(&mut walk);
    assert_eq!(due(&walk), (2, DefRegionKind::Outside, true));
    answer(&mut walk, WalkResult::InterruptWith(6));
    assert_eq!(end(walk), Err(NativeHalt::Interrupt(Some(6))));
}
