//! Structural visiting of values that live in a runtime with an open type registry.
//!
//! A walk visits a value, then what is below it: the elements of arrays and lists,
//! the keys and values of maps and dicts, the reflected fields of any other object.
//! Callbacks run before and after the children of each value; they can skip a value,
//! interrupt the walk, or visit children themselves. Fields flagged as definitions
//! set the definition region in which everything below them is visited.
//!
//! * [`step`] is the walk as a transition system, and [`walker::Walk`] runs it: it
//!   says what it needs to know of the runtime, and takes the answers.
//! * [`semantics`] says what a walk of a value held in memory ([`tree`]) means, and
//!   [`agreement`] proves that the transition system does just that.
//! * [`visit`] walks values held in memory with typed handlers or callbacks.
//! * [`laws`] states what holds of every walk.
//! * [`kind`], [`value`], [`outcome`], [`error`] and [`text`] hold what these share.
pub mod agreement;
pub mod error;
pub mod kind;
pub mod laws;
pub mod outcome;
pub mod semantics;
pub mod step;
pub mod text;
pub mod tree;
pub mod value;
pub mod visit;
pub mod walker;
