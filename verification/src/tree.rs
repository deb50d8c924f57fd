//! Values held in memory: everything that a walk can read of a value.
use vstd::prelude::*;

verus! {

/// A value together with all that a runtime would tell of it.
///
/// `E` is what the runtime raises where it fails.
#[derive(Debug, PartialEq, Eq)]
pub struct Value<E> {
    pub type_index: i32,
    /// Bits of an inline value, or identity of an object.
    pub data: u64,
    /// Type index of the visit hook that the value's type registers.
    pub hook: Option<i32>,
    pub content: Content<E>,
}

/// What is below a value.
#[derive(Debug, PartialEq, Eq)]
pub enum Content<E> {
    /// Nothing.
    Inline,
    /// An array or a list: the length that it reports, and its elements unless its
    /// data pointer is null.
    Sequence { length: i64, cells: Option<Vec<Value<E>>> },
    /// A map or a dict: the size that it reports, whether it gives an iterator, and
    /// what the iterator returns.
    Mapping { size: Result<i64, E>, iter: Result<(), E>, entries: Vec<Entry<E>> },
    /// An object: its reflected fields, those of its type's ancestors first, if its
    /// type is registered.
    Object { fields: Option<Vec<Field<E>>> },
}

/// What an iterator returns at one entry: the key, the value, and whether it can
/// move on.
#[derive(Debug, PartialEq, Eq)]
pub struct Entry<E> {
    pub key: Result<Value<E>, E>,
    pub value: Result<Value<E>, E>,
    pub next: Result<(), E>,
}

/// A reflected field and what its getter returns, if it has one.
#[derive(Debug, PartialEq, Eq)]
pub struct Field<E> {
    pub name: String,
    pub flags: i64,
    pub getter: Option<Result<Value<E>, E>>,
}

impl<E> Value<E> {
    /// Size of a sequence, and whether its data pointer is null.
    pub open spec fn header(self) -> (i64, bool) {
        match self.content {
            Content::Sequence { length, cells } => (length, cells is None),
            _ => (0, true),
        }
    }

    /// Elements of a sequence.
    pub open spec fn cells(self) -> Seq<Value<E>> {
        match self.content {
            Content::Sequence { cells: Some(cells), .. } => cells@,
            _ => Seq::empty(),
        }
    }

    /// Size of a map.
    pub open spec fn map_size(self) -> Result<i64, E> {
        match self.content {
            Content::Mapping { size, .. } => size,
            _ => Ok(0),
        }
    }

    /// Whether a map gives an iterator.
    pub open spec fn map_iter(self) -> Result<(), E> {
        match self.content {
            Content::Mapping { iter, .. } => iter,
            _ => Ok(()),
        }
    }

    /// Entries of a map.
    pub open spec fn entries(self) -> Seq<Entry<E>> {
        match self.content {
            Content::Mapping { entries, .. } => entries@,
            _ => Seq::empty(),
        }
    }

    /// Reflected fields of an object, if its type is registered.
    pub open spec fn fields(self) -> Option<Seq<Field<E>>> {
        match self.content {
            Content::Object { fields: Some(fields) } => Some(fields@),
            _ => None,
        }
    }

    /// Whether containers hold as much as they report, all the way down.
    pub open spec fn wf(self) -> bool
        decreases self,
    {
        match self.content {
            Content::Inline => true,
            Content::Sequence { length, cells } => match cells {
                None => true,
                Some(cells) => {
                    &&& length >= 0 ==> cells@.len() == length
                    &&& forall|i: int| 0 <= i < cells@.len() ==> (#[trigger] cells@[i]).wf()
                },
            },
            Content::Mapping { size, entries, .. } => {
                &&& size matches Ok(size) ==> size >= 0 ==> entries@.len() == size
                &&& forall|i: int| 0 <= i < entries@.len() ==> (#[trigger] entries@[i]).wf()
            },
            Content::Object { fields } => match fields {
                None => true,
                Some(fields) => forall|i: int|
                    0 <= i < fields@.len() ==> (#[trigger] fields@[i]).wf(),
            },
        }
    }
}

impl<E> Entry<E> {
    pub open spec fn wf(self) -> bool
        decreases self,
    {
        &&& self.key matches Ok(key) ==> key.wf()
        &&& self.value matches Ok(value) ==> value.wf()
    }
}

impl<E> Field<E> {
    pub open spec fn wf(self) -> bool
        decreases self,
    {
        self.getter matches Some(Ok(value)) ==> value.wf()
    }
}

} // verus!
