//! The object-model contract the collector core holds this layer to:
//! canonical start-of-object addressing for possibly tagged references.
//!
//! Size queries, copying and diagnostic dumps go through the runtime's
//! upcall table and stay outside the verified library.

use vstd::prelude::*;

use crate::tagged_address::is_canonical;

verus! {

/// A reference with its low-order mark bit cleared.
pub open spec fn unmarked(addr: usize) -> usize {
    (addr - addr % 2) as usize
}

pub struct VMObjectModel {}

impl VMObjectModel {
    /// An object starts at the address of its reference.
    pub fn object_start_ref(object: usize) -> (r: usize)
        ensures
            r == object,
    {
        object
    }

    /// The raw address under a reference: the low-order mark bit is cleared,
    /// so references that differ only in that bit name the same object.
    pub fn ref_to_address(object: usize) -> (r: usize)
        ensures
            r == unmarked(object),
            r % 2 == 0,
            is_canonical(object) ==> r == object,
    {
        proof {
            assert(object % 4 == 0 ==> object % 2 == 0) by (bit_vector);
        }
        object - object % 2
    }
}

} // verus!
