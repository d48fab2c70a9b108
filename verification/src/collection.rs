//! Collection lifecycle hooks. Stopping and resuming mutators, blocking for
//! a collection and actually spawning native threads are upcalls into the
//! runtime and live outside the verified library; what is decided here is
//! the numeric thread kind handed across that boundary for each context a
//! collector thread can run.

use vstd::prelude::*;

verus! {

/// Thread kind tag for the controller context, as the runtime expects it.
pub const GC_THREAD_KIND_CONTROLLER: i32 = 0;

/// Thread kind tag for a worker context, as the runtime expects it.
pub const GC_THREAD_KIND_WORKER: i32 = 1;

/// The context a spawned collector thread will run: the one controller, or
/// one of the workers.
#[derive(Clone, Copy, Debug, PartialEq, Eq, Structural)]
pub enum GcThreadContext {
    Controller,
    Worker,
}

pub struct VMCollection {}

impl VMCollection {
    /// The thread-kind tag passed to the runtime's spawn upcall for a given
    /// collector thread context.
    pub fn gc_thread_kind(ctx: &GcThreadContext) -> (k: i32)
        ensures
            ctx is Controller ==> k == GC_THREAD_KIND_CONTROLLER,
            ctx is Worker ==> k == GC_THREAD_KIND_WORKER,
    {
        match ctx {
            GcThreadContext::Controller => GC_THREAD_KIND_CONTROLLER,
            GcThreadContext::Worker => GC_THREAD_KIND_WORKER,
        }
    }
}

} // verus!
