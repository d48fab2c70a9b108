//! Boundary layer between a managed-language runtime's object heap and a
//! tracing garbage-collection core.
//!
//! The library keeps a live-object index of every externally visible heap
//! object (`object_archive`), strips and reattaches the low-order tag bits
//! the runtime stores in object pointers (`tagged_address`), and turns a
//! batch of candidate edges into trace operations and freshly packaged work
//! units for the collector's scheduler (`scanning`).
//!
//! The collector core itself — reachability, forwarding, scheduling — is an
//! external collaborator. Its decisions enter through injected capabilities
//! (function values handed to `ObjectArchive::update` and
//! `VMScanning::scan_slots`), so every policy of this layer is stated and
//! proved over whatever those capabilities may answer.

use vstd::prelude::*;

pub mod collection;
pub mod object_archive;
pub mod object_model;
pub mod scanning;
pub mod tagged_address;

verus! {

/// Marker for the runtime this layer binds to the collector core.
#[derive(Clone, Copy, Debug, Default)]
pub struct V8;

/// An edge is a slot holding a pointer-sized, possibly tagged address.
pub type V8Edge = usize;

} // verus!
