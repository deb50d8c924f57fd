//! What messages and backtrace lines say.
use vstd::prelude::*;

use crate::error::{Fault, Place};
use crate::text;

verus! {

/// The number that a row of decimal digits stands for.
pub open spec fn number_of(digits: Seq<char>) -> int
    decreases digits.len(),
{
    if digits.len() == 0 {
        0
    } else {
        10 * number_of(digits.drop_last()) + (digits.last() as int - 48)
    }
}

/// A numeral is made of digits, stands for its number, and has no leading zero; so no
/// other text is the numeral of that number.
pub proof fn law_numeral_stands_for_its_number(n: nat)
    ensures
        text::decimal(n).len() > 0,
        forall|i: int|
            0 <= i < text::decimal(n).len() ==> '0' <= #[trigger] text::decimal(n)[i] <= '9',
        number_of(text::decimal(n)) == n,
        text::decimal(n).len() > 1 ==> text::decimal(n)[0] != '0',
    decreases n,
{
    let digits = text::decimal(n);
    if n < 10 {
        assert(digits.drop_last() =~= Seq::empty());
        assert(number_of(digits.drop_last()) == 0);
    } else {
        law_numeral_stands_for_its_number(n / 10);
        assert(digits.drop_last() =~= text::decimal(n / 10));
        assert(digits[0] == text::decimal(n / 10)[0]);
        if text::decimal(n / 10).len() == 1 {
            let first = text::decimal(n / 10);
            assert(first.drop_last() =~= Seq::empty());
            assert(number_of(first.drop_last()) == 0);
            assert(number_of(first) == first[0] as int - 48);
        }
    }
}

/// A negative number is its magnitude behind a minus sign.
pub proof fn law_signed_numerals(n: int)
    ensures
        n >= 0 ==> text::signed_decimal(n) == text::decimal(n as nat),
        n < 0 ==> text::signed_decimal(n)[0] == '-' && text::signed_decimal(n).drop_first()
            == text::decimal((-n) as nat),
{
    if n < 0 {
        assert(text::signed_decimal(n).drop_first() =~= text::decimal((-n) as nat));
    }
}

/// What the messages of faults say, whatever the key of the type.
pub proof fn law_fault_messages(fault: Fault, key: Seq<char>)
    ensures
        match fault {
            Fault::NegativeSequenceSize => fault.text(key)
                == "native visitor: sequence reports a negative size"@,
            Fault::NullSequenceData => fault.text(key)
                == "native visitor: non-empty sequence has a null data pointer"@,
            Fault::SequenceSizeOverflow => fault.text(key)
                == "native visitor: sequence size does not fit usize"@,
            Fault::NegativeMapSize => fault.text(key)
                == "native visitor: map reports a negative size"@,
            Fault::MapSizeOverflow => fault.text(key)
                == "native visitor: map size does not fit usize"@,
            Fault::UnregisteredType { type_index } => fault.text(key)
                == "native visitor: unregistered type index "@ + text::signed_decimal(
                type_index as int,
            ),
            Fault::MissingGetter { field } => fault.text(key)
                == "native visitor: reflected field `"@ + field@ + "` has no getter"@,
            Fault::ForeignHook { type_index } => fault.text(key) == "native visitor: "@ + (
            if type_index < 64 {
                "type index "@ + text::signed_decimal(type_index as int)
            } else {
                "type `"@ + key + "`"@
            })
                + " registers foreign `__s_visit__`; use a matching pre-order Rust handler, visit its children through `VisitCtx`, and return `WalkResult::Skip`"@,
            Fault::InvalidHook => fault.text(key)
                == "__s_visit__ must be an opaque function pointer or ffi.Function"@,
        },
{
}

/// What the backtrace lines of places say.
pub proof fn law_place_lines(place: Place, key: Seq<char>)
    ensures
        match place {
            Place::Object { type_index } => place.text(key) == "object `"@ + key + "`"@,
            Place::Field { name } => place.text(key) == "field `"@ + name@ + "`"@,
            Place::SequenceItem { index } => place.text(key) == "sequence item ["@ + text::decimal(
                index as nat,
            ) + "]"@,
            Place::DictKey { index } => place.text(key) == "dict key ["@ + text::decimal(
                index as nat,
            ) + "]"@,
            Place::DictValue { index } => place.text(key) == "dict value ["@ + text::decimal(
                index as nat,
            ) + "]"@,
            Place::MapKey { index } => place.text(key) == "map key ["@ + text::decimal(
                index as nat,
            ) + "]"@,
            Place::MapValue { index } => place.text(key) == "map value ["@ + text::decimal(
                index as nat,
            ) + "]"@,
        },
{
}

} // verus!
