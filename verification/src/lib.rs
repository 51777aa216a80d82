//! An in-memory ordered associative container with tagged-variant values
//! (string, integer, float text, datetime, array of nested containers) and a
//! flat textual serialization that walks entries in most-recent-set order.

use vstd::prelude::*;

pub mod container;
pub mod item;
pub mod laws;
pub mod render;

pub use container::Ido;
pub use container::OrderedIdoIterator;
pub use item::DateStamp;
pub use item::IdoItem;
pub use item::IdoItemType;

verus! {

/// Key type for container entries: a caller-chosen signed 32-bit integer.
pub type IdoKeyT = i32;

} // verus!
