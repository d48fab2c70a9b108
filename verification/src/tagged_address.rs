//! Tag-bit handling for runtime-supplied addresses.
//!
//! The runtime hands the collector pointer-sized values whose two low-order
//! bits carry engine-specific tag metadata. The collector operates on the
//! canonical (tag-bit-clear) address and must reattach the original tag
//! verbatim whenever an address is returned to the runtime.

use vstd::prelude::*;

verus! {

/// The two low-order tag bits of an address.
pub open spec fn tag_bits(addr: usize) -> usize {
    addr % 4
}

/// The canonical address: `addr` with its two low-order tag bits cleared.
pub open spec fn untag(addr: usize) -> usize {
    (addr - addr % 4) as usize
}

/// A canonical address carries no tag bits.
pub open spec fn is_canonical(addr: usize) -> bool {
    addr % 4 == 0
}

/// Splits an address into its canonical part and its tag bits.
pub fn strip(addr: usize) -> (r: (usize, usize))
    ensures
        r.0 == untag(addr),
        r.1 == tag_bits(addr),
        is_canonical(r.0),
        r.0 + r.1 == addr,
{
    let tag = addr % 4;
    (addr - tag, tag)
}

/// Reapplies tag bits to a canonical address.
pub fn reattach(canonical: usize, tag: usize) -> (r: usize)
    requires
        is_canonical(canonical),
        tag < 4,
        canonical + tag <= usize::MAX,
    ensures
        r == canonical + tag,
        untag(r) == canonical,
        tag_bits(r) == tag,
{
    canonical + tag
}

/// Round-trip law: stripping an address and reattaching its tag restores it,
/// for every representable tagged address.
pub proof fn lemma_strip_reattach_roundtrip(addr: usize)
    ensures
        is_canonical(untag(addr)),
        tag_bits(addr) < 4,
        untag(addr) + tag_bits(addr) == addr,
{
}

} // verus!
