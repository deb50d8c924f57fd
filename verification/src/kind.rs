//! Numbers fixed by the runtime's stable ABI, and the small enumerations of a
//! walk: callback phase, callback order and definition region.
use vstd::prelude::*;

verus! {

/// Type index of the none value.
pub const TYPE_NONE: i32 = 0;

/// Type index of an opaque pointer.
pub const TYPE_OPAQUE_PTR: i32 = 4;

/// First type index of a reference-counted object; smaller indices are inline values.
pub const TYPE_STATIC_OBJECT_BEGIN: i32 = 64;

/// Type index of a function object.
pub const TYPE_FUNCTION: i32 = 68;

/// Type index of the immutable array.
pub const TYPE_ARRAY: i32 = 71;

/// Type index of the immutable map.
pub const TYPE_MAP: i32 = 72;

/// Type index of the mutable list.
pub const TYPE_LIST: i32 = 75;

/// Type index of the mutable dict.
pub const TYPE_DICT: i32 = 76;

/// Reflected-field flag: the field takes no part in structural traversal.
pub const FLAG_SEQ_HASH_IGNORE: i64 = 8;

/// Reflected-field flag: the field opens a recursive definition region.
pub const FLAG_SEQ_HASH_DEF_RECURSIVE: i64 = 16;

/// Reflected-field flag: the field opens a non-recursive definition region.
pub const FLAG_SEQ_HASH_DEF_NON_RECURSIVE: i64 = 4096;

/// Whether a value of this type is an object of the runtime.
pub open spec fn is_object(type_index: i32) -> bool {
    type_index >= TYPE_STATIC_OBJECT_BEGIN
}

/// Whether a value of this type is an array or a list.
pub open spec fn is_sequence(type_index: i32) -> bool {
    type_index == TYPE_ARRAY || type_index == TYPE_LIST
}

/// Whether a value of this type is a map or a dict.
pub open spec fn is_map(type_index: i32) -> bool {
    type_index == TYPE_MAP || type_index == TYPE_DICT
}

/// Whether `flags` holds a bit of `mask`.
pub open spec fn has_flag(flags: i64, mask: i64) -> bool {
    flags & mask != 0
}

/// Whether a callback runs before or after a value's children.
#[derive(Clone, Copy, Debug, PartialEq, Eq, Structural)]
pub enum Phase {
    /// Before the value's children.
    Enter,
    /// After the value's children.
    Exit,
}

/// Callback order for [`crate::visit::structural_walk`].
#[derive(Clone, Copy, Debug, PartialEq, Eq, Structural)]
pub enum WalkOrder {
    /// Run the typed handler before the current value's children.
    PreOrder,
    /// Run the typed handler after the current value's children.
    PostOrder,
}

impl Default for WalkOrder {
    fn default() -> (order: Self)
        ensures
            order == WalkOrder::PreOrder,
    {
        WalkOrder::PreOrder
    }
}

/// Definition-region state active at the current value.
///
/// Reflected fields flagged as definitions override the inherited state for
/// that field's complete recursive visit.
#[derive(Clone, Copy, Debug, PartialEq, Eq, Structural)]
pub enum DefRegionKind {
    /// The value is outside a definition region.
    Outside,
    /// Definitions apply recursively through the visited value.
    Recursive,
    /// Definitions apply to the visited value using non-recursive semantics.
    NonRecursive,
}

impl Default for DefRegionKind {
    fn default() -> (region: Self)
        ensures
            region == DefRegionKind::Outside,
    {
        DefRegionKind::Outside
    }
}

impl DefRegionKind {
    /// The number by which the runtime's ABI knows the region.
    pub fn code(self) -> (code: i32)
        ensures
            code == match self {
                DefRegionKind::Outside => 0i32,
                DefRegionKind::Recursive => 1i32,
                DefRegionKind::NonRecursive => 2i32,
            },
    {
        match self {
            DefRegionKind::Outside => 0,
            DefRegionKind::Recursive => 1,
            DefRegionKind::NonRecursive => 2,
        }
    }
}

/// The region in which the value of a field with `flags` is visited, where the
/// object holding the field is itself visited in `inherited`.
pub open spec fn region_of_field(flags: i64, inherited: DefRegionKind) -> DefRegionKind {
    if has_flag(flags, FLAG_SEQ_HASH_DEF_NON_RECURSIVE) {
        DefRegionKind::NonRecursive
    } else if has_flag(flags, FLAG_SEQ_HASH_DEF_RECURSIVE) {
        DefRegionKind::Recursive
    } else {
        inherited
    }
}

/// Definition region of a reflected field's value.
pub fn field_def_region(flags: i64, inherited: DefRegionKind) -> (region: DefRegionKind)
    ensures
        region == region_of_field(flags, inherited),
{
    if flags & FLAG_SEQ_HASH_DEF_NON_RECURSIVE != 0 {
        DefRegionKind::NonRecursive
    } else if flags & FLAG_SEQ_HASH_DEF_RECURSIVE != 0 {
        DefRegionKind::Recursive
    } else {
        inherited
    }
}

/// Name of the global function that tells the size of a map-like value.
pub open spec fn size_function(type_index: i32) -> &'static str {
    if type_index == TYPE_DICT {
        "ffi.DictSize"
    } else {
        "ffi.MapSize"
    }
}

/// Name of the global function that makes a forward iterator of a map-like value.
pub open spec fn iter_function(type_index: i32) -> &'static str {
    if type_index == TYPE_DICT {
        "ffi.DictForwardIterFunctor"
    } else {
        "ffi.MapForwardIterFunctor"
    }
}

/// Names of the two global functions through which a map-like value is read.
pub fn map_functions(type_index: i32) -> (names: (&'static str, &'static str))
    ensures
        names.0 == size_function(type_index),
        names.1 == iter_function(type_index),
{
    if type_index == TYPE_DICT {
        ("ffi.DictSize", "ffi.DictForwardIterFunctor")
    } else {
        ("ffi.MapSize", "ffi.MapForwardIterFunctor")
    }
}

} // verus!
