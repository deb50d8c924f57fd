//! Borrowed values as a walk hands them to its callbacks, and reflected fields.
use vstd::prelude::*;

use crate::kind::{TYPE_NONE, TYPE_STATIC_OBJECT_BEGIN};

verus! {

/// A value of the runtime: its type index, and a handle by which the runtime
/// finds the value again.
#[derive(Debug, PartialEq, Eq)]
pub struct VisitValue<H> {
    pub type_index: i32,
    pub handle: H,
}

impl<H> VisitValue<H> {
    /// Wrap a handle of the runtime.
    pub fn from_raw(type_index: i32, handle: H) -> (value: Self)
        ensures
            value == (VisitValue { type_index, handle }),
    {
        VisitValue { type_index, handle }
    }

    /// Runtime type index stored in this value.
    pub fn type_index(&self) -> (type_index: i32)
        ensures
            type_index == self.type_index,
    {
        self.type_index
    }

    /// Whether this is the runtime's none value.
    pub fn is_none(&self) -> (none: bool)
        ensures
            none == (self.type_index == TYPE_NONE),
    {
        self.type_index == TYPE_NONE
    }

    /// Borrow the value as a node if it is one of the node type's instances, where
    /// `is_instance` is what the type registry says of the value's type index.
    pub fn as_node(&self, is_instance: bool) -> (node: Option<&H>)
        ensures
            node == if self.type_index >= TYPE_STATIC_OBJECT_BEGIN && is_instance {
                Some(&self.handle)
            } else {
                None
            },
    {
        if self.type_index < TYPE_STATIC_OBJECT_BEGIN {
            return None;
        }
        if !is_instance {
            return None;
        }
        Some(&self.handle)
    }
}

/// What the walker reads of a reflected field.
#[derive(Debug, PartialEq, Eq)]
pub struct FieldInfo {
    /// Name of the field.
    pub name: String,
    /// Flag bits of the field.
    pub flags: i64,
    /// Number by which the runtime finds the field's getter, if it has one.
    pub getter: Option<usize>,
}

} // verus!
