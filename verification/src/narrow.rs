//! Narrowing an allocated id into the caller's declared numeric width.
//!
//! The allocator always works in the unsigned 64-bit domain; the consumer
//! declares the width its ids must fit. Narrowing is an explicit, fallible
//! step: a value that does not fit is reported, never truncated.

use vstd::prelude::*;

verus! {

/// The numeric widths a registry consumer may declare for its ids.
#[derive(Clone, Copy, PartialEq, Eq, Structural, Debug)]
pub enum IdWidth {
    U8,
    U16,
    U32,
    U64,
    I8,
    I16,
    I32,
    I64,
}

impl IdWidth {
    /// The largest allocated id the width can carry.
    pub open spec fn spec_max(self) -> u64 {
        match self {
            IdWidth::U8 => 0xff,
            IdWidth::U16 => 0xffff,
            IdWidth::U32 => 0xffff_ffff,
            IdWidth::U64 => 0xffff_ffff_ffff_ffff,
            IdWidth::I8 => 0x7f,
            IdWidth::I16 => 0x7fff,
            IdWidth::I32 => 0x7fff_ffff,
            IdWidth::I64 => 0x7fff_ffff_ffff_ffff,
        }
    }

    /// The largest allocated id the width can carry.
    pub fn max_id(self) -> (r: u64)
        ensures
            r == self.spec_max(),
    {
        match self {
            IdWidth::U8 => 0xff,
            IdWidth::U16 => 0xffff,
            IdWidth::U32 => 0xffff_ffff,
            IdWidth::U64 => 0xffff_ffff_ffff_ffff,
            IdWidth::I8 => 0x7f,
            IdWidth::I16 => 0x7fff,
            IdWidth::I32 => 0x7fff_ffff,
            IdWidth::I64 => 0x7fff_ffff_ffff_ffff,
        }
    }
}

/// An allocated id does not fit the declared width: a configuration error
/// of the caller, surfaced rather than silently truncated.
#[derive(Clone, Copy, PartialEq, Eq, Structural, Debug)]
pub struct NarrowingFailure {
    /// The id that was allocated.
    pub id: u64,
    /// The width it was to fit.
    pub target_type: IdWidth,
}

/// Checks that an allocated id fits the declared width: the id unchanged
/// exactly when it fits, and a failure naming id and width otherwise.
pub fn narrow_id(id: u64, target_type: IdWidth) -> (r: Result<u64, NarrowingFailure>)
    ensures
        id <= target_type.spec_max() ==> r == Ok::<u64, NarrowingFailure>(id),
        id > target_type.spec_max() ==> r == Err::<u64, NarrowingFailure>(
            NarrowingFailure { id, target_type },
        ),
{
    if id <= target_type.max_id() {
        Ok(id)
    } else {
        Err(NarrowingFailure { id, target_type })
    }
}

} // verus!
