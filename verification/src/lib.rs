//! A persistent unique-identifier allocator.
//!
//! A registry is a line-oriented text file of `name=id` records shared by
//! possibly-concurrent processes. Given a name, the allocator returns the id
//! already recorded for it, or the smallest unused id at or above a
//! configurable start offset. This crate holds the verified core: parsing the
//! registry text into a mapping, the allocation decision, and rendering a new
//! record. File access and locking live outside, in the unverified shell.

use vstd::prelude::*;

pub mod allocator;
pub mod counter;
pub mod narrow;
pub mod numerals;
pub mod registry;
pub mod split;

verus! {

/// A strong type for a type id.
#[derive(Clone, Copy, PartialEq, Eq, Structural, Debug)]
pub struct TypeId(pub u64);

/// A trait for providing a type id number.
pub trait UniqueTypeId {
    /// Returns the type id number.
    fn id() -> TypeId;
}

} // verus!
