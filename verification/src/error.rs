//! Errors of a walk: what the walker itself reports, what the runtime or a
//! handler raised, and the places through which an error passed.
use vstd::prelude::*;
use vstd::string::StringExecFns;

use crate::kind::TYPE_STATIC_OBJECT_BEGIN;
use crate::text::{append_decimal, append_signed_decimal, joined};

verus! {

/// Kind of an error that the walker itself reports.
#[derive(Clone, Copy, Debug, PartialEq, Eq, Structural)]
pub enum ErrorKind {
    Runtime,
    Type,
}

impl ErrorKind {
    /// Name of the kind, as [`ErrorKind::as_str`] returns it.
    pub open spec fn name(self) -> &'static str {
        match self {
            ErrorKind::Runtime => "RuntimeError",
            ErrorKind::Type => "TypeError",
        }
    }

    /// Name of the kind in the runtime.
    pub fn as_str(self) -> (name: &'static str)
        ensures
            name@ == self.name()@,
    {
        match self {
            ErrorKind::Runtime => "RuntimeError",
            ErrorKind::Type => "TypeError",
        }
    }
}

/// What the walker itself reports as wrong with a value.
#[derive(Debug, PartialEq, Eq)]
pub enum Fault {
    /// A sequence reports a negative size.
    NegativeSequenceSize,
    /// A sequence that is not empty has no data.
    NullSequenceData,
    /// The size of a sequence is no `usize`.
    SequenceSizeOverflow,
    /// A map reports a negative size.
    NegativeMapSize,
    /// The size of a map is no `usize`.
    MapSizeOverflow,
    /// An object has a type index that the registry does not know.
    UnregisteredType { type_index: i32 },
    /// A reflected field that takes part in the traversal has no getter.
    MissingGetter { field: String },
    /// A type whose children are not a container's registers its own visit hook.
    ForeignHook { type_index: i32 },
    /// A type registers a visit hook that is no function.
    InvalidHook,
}

impl Fault {
    /// Kind of the fault, as [`Fault::kind`] returns it.
    pub open spec fn spec_kind(self) -> ErrorKind {
        match self {
            Fault::InvalidHook => ErrorKind::Type,
            _ => ErrorKind::Runtime,
        }
    }

    /// Text of the fault, where `type_key` is the registered key of the type that
    /// the fault speaks of.
    pub open spec fn text(self, type_key: Seq<char>) -> Seq<char> {
        match self {
            Fault::NegativeSequenceSize => "native visitor: sequence reports a negative size"@,
            Fault::NullSequenceData =>
                "native visitor: non-empty sequence has a null data pointer"@,
            Fault::SequenceSizeOverflow => "native visitor: sequence size does not fit usize"@,
            Fault::NegativeMapSize => "native visitor: map reports a negative size"@,
            Fault::MapSizeOverflow => "native visitor: map size does not fit usize"@,
            Fault::UnregisteredType { type_index } =>
                "native visitor: unregistered type index "@
                    + crate::text::signed_decimal(type_index as int),
            Fault::MissingGetter { field } =>
                "native visitor: reflected field `"@ + field@ + "` has no getter"@,
            Fault::ForeignHook { type_index } =>
                "native visitor: "@ + hooked_type_text(type_index, type_key)
                    + " registers foreign `__s_visit__`; use a matching pre-order Rust handler, visit its children through `VisitCtx`, and return `WalkResult::Skip`"@,
            Fault::InvalidHook =>
                "__s_visit__ must be an opaque function pointer or ffi.Function"@,
        }
    }

    /// Kind of the fault.
    pub fn kind(&self) -> (kind: ErrorKind)
        ensures
            kind == self.spec_kind(),
    {
        match self {
            Fault::InvalidHook => ErrorKind::Type,
            _ => ErrorKind::Runtime,
        }
    }

    /// Type index whose registered key [`Fault::message`] needs.
    pub fn keyed_type(&self) -> (type_index: Option<i32>)
        ensures
            type_index == match *self {
                Fault::ForeignHook { type_index } if type_index >= TYPE_STATIC_OBJECT_BEGIN =>
                    Some(type_index),
                _ => None,
            },
    {
        match self {
            Fault::ForeignHook { type_index } => {
                if *type_index >= TYPE_STATIC_OBJECT_BEGIN {
                    Some(*type_index)
                } else {
                    None
                }
            },
            _ => None,
        }
    }

    /// Message of the fault, where `type_key` is the registered key of
    /// [`Fault::keyed_type`].
    pub fn message(&self, type_key: &str) -> (message: String)
        ensures
            message@ == self.text(type_key@),
    {
        match self {
            Fault::NegativeSequenceSize => String::from_str(
                "native visitor: sequence reports a negative size",
            ),
            Fault::NullSequenceData => String::from_str(
                "native visitor: non-empty sequence has a null data pointer",
            ),
            Fault::SequenceSizeOverflow => String::from_str(
                "native visitor: sequence size does not fit usize",
            ),
            Fault::NegativeMapSize => String::from_str(
                "native visitor: map reports a negative size",
            ),
            Fault::MapSizeOverflow => String::from_str(
                "native visitor: map size does not fit usize",
            ),
            Fault::UnregisteredType { type_index } => {
                let mut message = String::from_str("native visitor: unregistered type index ");
                append_signed_decimal(&mut message, *type_index);
                message
            },
            Fault::MissingGetter { field } => joined(
                "native visitor: reflected field `",
                field.as_str(),
                "` has no getter",
            ),
            Fault::ForeignHook { type_index } => {
                let value_type = hooked_type(*type_index, type_key);
                joined(
                    "native visitor: ",
                    value_type.as_str(),
                    " registers foreign `__s_visit__`; use a matching pre-order Rust handler, visit its children through `VisitCtx`, and return `WalkResult::Skip`",
                )
            },
            Fault::InvalidHook => String::from_str(
                "__s_visit__ must be an opaque function pointer or ffi.Function",
            ),
        }
    }
}

/// How a message names a type with a visit hook: an object type by its key, any
/// other type by its index.
pub open spec fn hooked_type_text(type_index: i32, type_key: Seq<char>) -> Seq<char> {
    if type_index < TYPE_STATIC_OBJECT_BEGIN {
        "type index "@ + crate::text::signed_decimal(type_index as int)
    } else {
        "type `"@ + type_key + "`"@
    }
}

fn hooked_type(type_index: i32, type_key: &str) -> (text: String)
    ensures
        text@ == hooked_type_text(type_index, type_key@),
{
    if type_index < TYPE_STATIC_OBJECT_BEGIN {
        let mut text = String::from_str("type index ");
        append_signed_decimal(&mut text, type_index);
        text
    } else {
        joined("type `", type_key, "`")
    }
}

/// A place of the visited graph, relative to the value that holds it.
#[derive(Debug, PartialEq, Eq)]
pub enum Place {
    /// The object itself.
    Object { type_index: i32 },
    /// A reflected field of an object.
    Field { name: String },
    /// An element of an array or a list.
    SequenceItem { index: usize },
    /// The key of an entry of a dict.
    DictKey { index: usize },
    /// The value of an entry of a dict.
    DictValue { index: usize },
    /// The key of an entry of a map.
    MapKey { index: usize },
    /// The value of an entry of a map.
    MapValue { index: usize },
}

impl Place {
    /// Text of the place, where `type_key` is the registered key of the object's type.
    pub open spec fn text(self, type_key: Seq<char>) -> Seq<char> {
        match self {
            Place::Object { type_index } => "object `"@ + type_key + "`"@,
            Place::Field { name } => "field `"@ + name@ + "`"@,
            Place::SequenceItem { index } => numbered("sequence item ["@, index),
            Place::DictKey { index } => numbered("dict key ["@, index),
            Place::DictValue { index } => numbered("dict value ["@, index),
            Place::MapKey { index } => numbered("map key ["@, index),
            Place::MapValue { index } => numbered("map value ["@, index),
        }
    }

    /// Type index whose registered key [`Place::frame`] needs.
    pub fn keyed_type(&self) -> (type_index: Option<i32>)
        ensures
            type_index == match *self {
                Place::Object { type_index } => Some(type_index),
                _ => None,
            },
    {
        match self {
            Place::Object { type_index } => Some(*type_index),
            _ => None,
        }
    }

    /// The line that the place adds to the backtrace of an error, where `type_key`
    /// is the registered key of [`Place::keyed_type`].
    pub fn frame(&self, type_key: &str) -> (frame: String)
        ensures
            frame@ == "[native structural visit] "@ + self.text(type_key@) + "\n"@,
    {
        let place = match self {
            Place::Object { type_index } => joined("object `", type_key, "`"),
            Place::Field { name } => joined("field `", name.as_str(), "`"),
            Place::SequenceItem { index } => numbered_text("sequence item [", *index),
            Place::DictKey { index } => numbered_text("dict key [", *index),
            Place::DictValue { index } => numbered_text("dict value [", *index),
            Place::MapKey { index } => numbered_text("map key [", *index),
            Place::MapValue { index } => numbered_text("map value [", *index),
        };
        joined("[native structural visit] ", place.as_str(), "\n")
    }
}

/// Text of a place that is found by its position.
pub open spec fn numbered(label: Seq<char>, index: usize) -> Seq<char> {
    label + crate::text::decimal(index as nat) + "]"@
}

fn numbered_text(label: &str, index: usize) -> (text: String)
    ensures
        text@ == numbered(label@, index),
{
    let mut text = String::from_str(label);
    append_decimal(&mut text, index as u64);
    text.append("]");
    text
}

/// An error that stops a walk.
///
/// `E` is what the runtime and the handlers raise; the walk carries it through
/// and never looks inside.
#[derive(Debug, PartialEq, Eq)]
pub enum Error<E> {
    /// The walker found a fault.
    Native(Fault),
    /// The runtime or a handler raised an error.
    Raised(E),
    /// `source`, on its way out through `place`.
    Within { place: Place, source: Box<Error<E>> },
}

impl<E> Error<E> {
    /// The error without the places that it passed.
    pub open spec fn origin(self) -> Error<E>
        decreases self,
    {
        match self {
            Error::Within { place, source } => source.origin(),
            _ => self,
        }
    }

    /// The places that the error passed, innermost first.
    pub open spec fn places(self) -> Seq<Place>
        decreases self,
    {
        match self {
            Error::Within { place, source } => source.places().push(place),
            _ => Seq::empty(),
        }
    }

    /// The error with `place` behind the places that it passed before.
    pub fn within(self, place: Place) -> (error: Self)
        ensures
            error == (Error::Within { place, source: Box::new(self) }),
            error.origin() == self.origin(),
            error.places() == self.places().push(place),
    {
        Error::Within { place, source: Box::new(self) }
    }
}

} // verus!
