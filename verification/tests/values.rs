//! The small pieces: regions, flows, values, results.
use std::ops::ControlFlow;

use tirx_ext::error::{Error, Fault, Place};
use tirx_ext::kind::{field_def_region, map_functions, DefRegionKind, WalkOrder};
use tirx_ext::outcome::{
    absorb, finish, may_visit, or_advance, with_error_context, IntoVisitResult, NativeHalt,
    VisitResult, WalkResult,
};
use tirx_ext::step::{Answer, NativeWalker};
use tirx_ext::text::{append_decimal, append_signed_decimal, joined};
use tirx_ext::value::VisitValue;
use tirx_ext::walker::STRUCTURAL_VISIT_ATTR;

#[test]
fn region_codes() {
    assert_eq!(DefRegionKind::Outside.code(), 0);
    assert_eq!(DefRegionKind::Recursive.code(), 1);
    assert_eq!(DefRegionKind::NonRecursive.code(), 2);
}

#[test]
fn defaults() {
    assert_eq!(WalkOrder::default(), WalkOrder::PreOrder);
    assert_eq!(DefRegionKind::default(), DefRegionKind::Outside);
}

#[test]
fn field_regions() {
    let inherited = DefRegionKind::Recursive;
    assert_eq!(field_def_region(0, inherited), DefRegionKind::Recursive);
    assert_eq!(field_def_region(16, DefRegionKind::Outside), DefRegionKind::Recursive);
    assert_eq!(field_def_region(4096, inherited), DefRegionKind::NonRecursive);
    assert_eq!(field_def_region(4096 | 16, inherited), DefRegionKind::NonRecursive);
    assert_eq!(field_def_region(8, DefRegionKind::NonRecursive), DefRegionKind::NonRecursive);
}

#[test]
fn map_function_names() {
    assert_eq!(map_functions(76), ("ffi.DictSize", "ffi.DictForwardIterFunctor"));
    assert_eq!(map_functions(72), ("ffi.MapSize", "ffi.MapForwardIterFunctor"));
}

#[test]
fn interrupt_with_converts_its_payload() {
    let flow: WalkResult<u64> = WalkResult::interrupt_with(7u8);
    assert_eq!(flow, WalkResult::InterruptWith(7u64));
}

#[test]
fn flows_stand_for_themselves() {
    let answer: VisitResult<u64, u32> = WalkResult::Skip.into_visit_result();
    assert_eq!(answer, Ok(WalkResult::Skip));
    let failed: VisitResult<u64, u32> = Err(Error::Raised(3));
    assert_eq!(failed.into_visit_result(), Err(Error::Raised(3)));
}

#[test]
fn nodes_are_objects_of_their_type() {
    let object = VisitValue::from_raw(64, "node");
    assert_eq!(object.type_index(), 64);
    assert_eq!(object.as_node(true), Some(&"node"));
    assert_eq!(object.as_node(false), None);
    let inline = VisitValue::from_raw(63, "number");
    assert_eq!(inline.as_node(true), None);
    assert!(!inline.is_none());
    assert!(VisitValue::from_raw(0, ()).is_none());
}

#[test]
fn results_are_handed_to_the_caller() {
    assert_eq!(finish::<u64, u32>(Ok(())), Ok(ControlFlow::Continue(())));
    assert_eq!(
        finish::<u64, u32>(Err(NativeHalt::Interrupt(Some(2)))),
        Ok(ControlFlow::Break(Some(2)))
    );
    assert_eq!(finish::<u64, u32>(Err(NativeHalt::Interrupt(None))), Ok(ControlFlow::Break(None)));
    assert_eq!(
        finish::<u64, u32>(Err(NativeHalt::Error(Error::Raised(1)))),
        Err(Error::Raised(1))
    );
}

#[test]
fn interruptions_pass_places_unchanged() {
    let halt: NativeHalt<u64, u32> = NativeHalt::Interrupt(Some(1));
    assert_eq!(
        with_error_context(halt, Place::MapKey { index: 0 }),
        NativeHalt::Interrupt(Some(1))
    );
    let halt: NativeHalt<u64, u32> = Error::Raised(1).into();
    assert_eq!(
        with_error_context(halt, Place::MapKey { index: 0 }),
        NativeHalt::Error(Error::Within {
            place: Place::MapKey { index: 0 },
            source: Box::new(Error::Raised(1)),
        })
    );
}

#[test]
fn inline_values_leave_no_place() {
    let halt: NativeHalt<u64, u32> = NativeHalt::Error(Error::Raised(1));
    assert_eq!(
        NativeWalker::with_value_context(halt, 63),
        NativeHalt::Error(Error::Raised(1))
    );
    let halt: NativeHalt<u64, u32> = NativeHalt::Error(Error::Raised(1));
    assert_eq!(
        NativeWalker::with_value_context(halt, 64),
        NativeHalt::Error(Error::Within {
            place: Place::Object { type_index: 64 },
            source: Box::new(Error::Raised(1)),
        })
    );
}

#[test]
fn answers_are_settled() {
    let settle = |result: VisitResult<u64, u32>, halted: Option<NativeHalt<u64, u32>>| {
        NativeWalker::settle(Answer { result, halted }, 1)
    };
    assert_eq!(settle(Ok(WalkResult::Advance), None), Ok(true));
    assert_eq!(settle(Ok(WalkResult::Skip), None), Ok(false));
    assert_eq!(settle(Ok(WalkResult::Interrupt), None), Err(NativeHalt::Interrupt(None)));
    assert_eq!(
        settle(Ok(WalkResult::InterruptWith(4)), None),
        Err(NativeHalt::Interrupt(Some(4)))
    );
    assert_eq!(
        settle(Ok(WalkResult::Advance), Some(NativeHalt::Interrupt(Some(5)))),
        Err(NativeHalt::Interrupt(Some(5)))
    );
    assert_eq!(
        settle(Err(Error::Raised(6)), Some(NativeHalt::Interrupt(Some(5)))),
        Err(NativeHalt::Error(Error::Raised(6)))
    );
}

#[test]
fn hooks_are_judged() {
    assert_eq!(STRUCTURAL_VISIT_ATTR, "__s_visit__");
    let judge = |hook: Option<i32>| NativeWalker::reject_foreign_structural_visit(90, hook);
    assert_eq!(judge(None), Ok(()));
    assert_eq!(judge(Some(0)), Ok(()));
    assert_eq!(judge(Some(4)), Err(Fault::ForeignHook { type_index: 90 }));
    assert_eq!(judge(Some(68)), Err(Fault::ForeignHook { type_index: 90 }));
    assert_eq!(judge(Some(71)), Err(Fault::InvalidHook));
}

#[test]
fn numerals() {
    let mut text = String::from("n=");
    append_decimal(&mut text, 0);
    append_decimal(&mut text, 10203);
    assert_eq!(text, "n=010203");
    let mut text = String::new();
    append_signed_decimal(&mut text, i32::MIN);
    append_signed_decimal(&mut text, 45);
    assert_eq!(text, "-214748364845");
    assert_eq!(joined("a", "", "c"), "ac");
}

#[test]
fn halts_are_absorbed() {
    let mut halted: Option<NativeHalt<u64, u32>> = None;
    assert!(may_visit(&halted));
    assert!(absorb(&mut halted, Ok(())));
    assert_eq!(halted, None);
    assert!(!absorb(&mut halted, Err(NativeHalt::Interrupt(Some(3)))));
    assert_eq!(halted, Some(NativeHalt::Interrupt(Some(3))));
    assert!(!may_visit(&halted));
    assert!(absorb(&mut halted, Ok(())));
    assert_eq!(halted, Some(NativeHalt::Interrupt(Some(3))));
}

#[test]
fn visitors_without_a_handler_advance() {
    assert_eq!(or_advance::<u64, u32>(None), Ok(WalkResult::Advance));
    assert_eq!(or_advance::<u64, u32>(Some(Ok(WalkResult::Skip))), Ok(WalkResult::Skip));
    assert_eq!(or_advance::<u64, u32>(Some(Err(Error::Raised(2)))), Err(Error::Raised(2)));
}
