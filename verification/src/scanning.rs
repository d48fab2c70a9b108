//! The scanning bridge: turns a batch enumeration of candidate edges into
//! trace operations against the collector core and re-packages newly
//! discovered reachable objects into work units for the collector's
//! scheduler.
//!
//! Per edge, the bridge reads the slot, strips the runtime's tag bits,
//! hands the canonical address to an injected trace capability, writes the
//! possibly forwarded address back into the slot under the original tag,
//! and appends each new discovery to a thread-confined scan buffer. A
//! buffer that reaches its configured capacity is flushed at once as a new
//! unit of work, so downstream processing can proceed in parallel; whatever
//! remains is flushed when the enumeration completes.

use vstd::prelude::*;

use crate::tagged_address::{is_canonical, reattach, strip, tag_bits, untag};
use crate::V8Edge;

verus! {

/// What the collector core answers for one traced canonical address: where
/// the object now lives (its forwarded location if it moved, otherwise the
/// address it was traced under), and whether this trace discovered it for
/// the first time.
#[derive(Clone, Copy, Debug, PartialEq, Eq, Structural)]
pub struct TraceOutcome {
    pub addr: usize,
    pub is_new_discovery: bool,
}

/// Every answer a trace capability may give names a canonical address and
/// leaves room to reattach two tag bits.
pub open spec fn tracer_outcome_ok(o: TraceOutcome) -> bool {
    is_canonical(o.addr) && o.addr + 3 <= usize::MAX
}

/// A trace capability the bridge can rely on: callable on every canonical
/// address, with every possible answer well formed.
pub open spec fn valid_tracer<F: Fn(usize) -> TraceOutcome>(tracer: F) -> bool {
    &&& forall|a: usize| call_requires(tracer, (a,))
    &&& forall|a: usize, o: TraceOutcome| #[trigger] call_ensures(tracer, (a,), o)
        ==> tracer_outcome_ok(o)
}

/// The slot value after one edge is processed: the traced object's current
/// address with the slot's original tag bits reattached. A non-moving
/// answer reproduces the old value, so no observable rewrite happens.
pub open spec fn slot_after(old_slot: usize, o: TraceOutcome) -> usize {
    (o.addr + tag_bits(old_slot)) as usize
}

/// The scan buffer after one edge: unchanged unless the trace discovered a
/// new object; a discovery that fills the buffer to its capacity empties it
/// into a flushed work unit.
pub open spec fn buffer_after_edge(buf: Seq<usize>, o: TraceOutcome, cap: int) -> Seq<usize> {
    if !o.is_new_discovery {
        buf
    } else if buf.len() + 1 == cap {
        Seq::empty()
    } else {
        buf.push(o.addr)
    }
}

/// The submitted work units after one edge: one more unit exactly when the
/// discovery filled the buffer to its capacity.
pub open spec fn units_after_edge(
    buf: Seq<usize>,
    units: Seq<Seq<usize>>,
    o: TraceOutcome,
    cap: int,
) -> Seq<Seq<usize>> {
    if o.is_new_discovery && buf.len() + 1 == cap {
        units.push(buf.push(o.addr))
    } else {
        units
    }
}

/// Slot values, scan buffer and submitted units after a batch of edges is
/// processed in order, `os` giving the trace answer per edge.
pub open spec fn scan_fold(
    slots: Seq<usize>,
    os: Seq<TraceOutcome>,
    buf: Seq<usize>,
    units: Seq<Seq<usize>>,
    cap: int,
) -> (Seq<usize>, Seq<usize>, Seq<Seq<usize>>)
    decreases slots.len(),
{
    if slots.len() == 0 {
        (slots, buf, units)
    } else {
        let prior = scan_fold(slots.drop_last(), os, buf, units, cap);
        let o = os[slots.len() - 1];
        (
            prior.0.push(slot_after(slots.last(), o)),
            buffer_after_edge(prior.1, o, cap),
            units_after_edge(prior.1, prior.2, o, cap),
        )
    }
}

/// Trace answers beyond a batch's length do not change its fold.
proof fn lemma_scan_fold_extend(
    slots: Seq<usize>,
    os: Seq<TraceOutcome>,
    buf: Seq<usize>,
    units: Seq<Seq<usize>>,
    cap: int,
    o: TraceOutcome,
)
    requires
        slots.len() <= os.len(),
    ensures
        scan_fold(slots, os.push(o), buf, units, cap) == scan_fold(slots, os, buf, units, cap),
    decreases slots.len(),
{
    if slots.len() > 0 {
        lemma_scan_fold_extend(slots.drop_last(), os, buf, units, cap, o);
        assert(os.push(o)[slots.len() - 1] == os[slots.len() - 1]);
    }
}

/// One scan of a batch of slots, accounted for: `os` lists a possible trace
/// answer per edge, and the final slot values and submitted units are the
/// fold of exactly those answers, with a final flush of whatever the buffer
/// still held.
pub open spec fn scan_witness<F: Fn(usize) -> TraceOutcome>(
    slots: Seq<usize>,
    os: Seq<TraceOutcome>,
    tracer: F,
    units0: Seq<Seq<usize>>,
    cap: int,
    slots_after: Seq<usize>,
    units_after: Seq<Seq<usize>>,
) -> bool {
    &&& os.len() == slots.len()
    &&& forall|i: int|
        0 <= i < slots.len() ==> call_ensures(tracer, (untag(slots[i]),), #[trigger] os[i])
    &&& {
        let folded = scan_fold(slots, os, Seq::empty(), units0, cap);
        slots_after == folded.0 && units_after == (if folded.1.len() > 0 {
            folded.2.push(folded.1)
        } else {
            folded.2
        })
    }
}

/// The queue of work units handed to the collector core's scheduler. A
/// submitted batch is fire-and-forget for the bridge; the surrounding
/// scheduler drains the queue before the collection phase completes.
pub struct WorkDispatch {
    units: Vec<Vec<usize>>,
}

impl WorkDispatch {
    /// The submitted units, oldest first.
    pub closed spec fn units_view(self) -> Seq<Seq<usize>> {
        Seq::new(self.units@.len(), |i: int| self.units@[i]@)
    }

    /// An empty queue.
    pub fn new() -> (r: WorkDispatch)
        ensures
            r.units_view() == Seq::<Seq<usize>>::empty(),
    {
        let r = WorkDispatch { units: Vec::new() };
        proof {
            assert(r.units_view() =~= Seq::<Seq<usize>>::empty());
        }
        r
    }

    /// Hands one batch of discovered objects to the scheduler as an atomic
    /// unit of further transitive-closure work.
    pub fn submit(&mut self, batch: Vec<usize>)
        ensures
            final(self).units_view() == old(self).units_view().push(batch@),
    {
        let ghost prev = self.units_view();
        self.units.push(batch);
        proof {
            assert(self.units_view() =~= prev.push(batch@));
        }
    }

    /// Drains the queued units for the surrounding scheduler to execute.
    pub fn take_units(&mut self) -> (r: Vec<Vec<usize>>)
        ensures
            final(self).units_view() == Seq::<Seq<usize>>::empty(),
            r@.len() == old(self).units_view().len(),
            forall|i: int| 0 <= i < r@.len() ==> #[trigger] r@[i]@ == old(self).units_view()[i],
    {
        let r = self.units.split_off(0);
        proof {
            assert(self.units_view() =~= Seq::<Seq<usize>>::empty());
            assert(r@ =~= old(self).units@);
        }
        r
    }
}

/// One worker's scanning state: the thread-confined buffer of newly
/// discovered objects and the capacity at which it is flushed.
pub struct VMScanning {
    buffer: Vec<usize>,
    capacity: usize,
}

impl VMScanning {
    /// The discoveries buffered so far, in discovery order.
    pub closed spec fn buffer_view(self) -> Seq<usize> {
        self.buffer@
    }

    /// The configured flush threshold.
    pub closed spec fn flush_threshold(self) -> int {
        self.capacity as int
    }

    /// Bridge invariant: a positive threshold that the buffer stays under,
    /// because reaching it flushes immediately.
    pub open spec fn wf(self) -> bool {
        self.flush_threshold() >= 1 && self.buffer_view().len() < self.flush_threshold()
    }

    /// A fresh bridge with an empty buffer.
    pub fn new(capacity: usize) -> (r: VMScanning)
        requires
            capacity >= 1,
        ensures
            r.wf(),
            r.buffer_view() == Seq::<usize>::empty(),
            r.flush_threshold() == capacity,
    {
        VMScanning { buffer: Vec::new(), capacity }
    }

    /// How many discoveries the buffer currently holds; a scan invocation
    /// must not start with residual state, and callers outside the proof
    /// test that with this.
    pub fn buffered(&self) -> (n: usize)
        ensures
            n == self.buffer_view().len(),
    {
        self.buffer.len()
    }

    /// Records one trace answer: buffers a new discovery and flushes the
    /// buffer as a work unit the moment it reaches capacity.
    fn record_discovery(&mut self, o: TraceOutcome, dispatch: &mut WorkDispatch)
        requires
            old(self).wf(),
        ensures
            final(self).wf(),
            final(self).flush_threshold() == old(self).flush_threshold(),
            final(self).buffer_view() == buffer_after_edge(
                old(self).buffer_view(),
                o,
                old(self).flush_threshold(),
            ),
            final(dispatch).units_view() == units_after_edge(
                old(self).buffer_view(),
                old(dispatch).units_view(),
                o,
                old(self).flush_threshold(),
            ),
    {
        if o.is_new_discovery {
            self.buffer.push(o.addr);
            if self.buffer.len() == self.capacity {
                let batch = self.buffer.split_off(0);
                proof {
                    assert(self.buffer@ =~= Seq::<usize>::empty());
                    assert(batch@ =~= old(self).buffer_view().push(o.addr));
                }
                dispatch.submit(batch);
            }
        }
    }

    /// The per-edge protocol: read the slot, split off the tag, trace the
    /// canonical address through the collector core, write the current
    /// (possibly forwarded) address back under the original tag, and record
    /// the resulting object reference; returns the trace answer.
    pub fn process_edge<F: Fn(usize) -> TraceOutcome>(
        &mut self,
        slot: &mut V8Edge,
        tracer: F,
        dispatch: &mut WorkDispatch,
    ) -> (o: TraceOutcome)
        requires
            old(self).wf(),
            valid_tracer(tracer),
        ensures
            final(self).wf(),
            final(self).flush_threshold() == old(self).flush_threshold(),
            call_ensures(tracer, (untag(*old(slot)),), o),
            *final(slot) == slot_after(*old(slot), o),
            final(self).buffer_view() == buffer_after_edge(
                old(self).buffer_view(),
                o,
                old(self).flush_threshold(),
            ),
            final(dispatch).units_view() == units_after_edge(
                old(self).buffer_view(),
                old(dispatch).units_view(),
                o,
                old(self).flush_threshold(),
            ),
    {
        let stripped = strip(*slot);
        let outcome = tracer(stripped.0);
        *slot = reattach(outcome.addr, stripped.1);
        self.record_discovery(outcome, dispatch);
        outcome
    }

    /// Flushes a non-empty buffer as one work unit; a no-op when the buffer
    /// is empty.
    pub fn flush(&mut self, dispatch: &mut WorkDispatch)
        requires
            old(self).wf(),
        ensures
            final(self).wf(),
            final(self).flush_threshold() == old(self).flush_threshold(),
            final(self).buffer_view() == Seq::<usize>::empty(),
            final(dispatch).units_view() == (if old(self).buffer_view().len() > 0 {
                old(dispatch).units_view().push(old(self).buffer_view())
            } else {
                old(dispatch).units_view()
            }),
    {
        if self.buffer.len() > 0 {
            let batch = self.buffer.split_off(0);
            proof {
                assert(self.buffer@ =~= Seq::<usize>::empty());
                assert(batch@ =~= old(self).buffer_view());
            }
            dispatch.submit(batch);
        } else {
            proof {
                assert(self.buffer@ =~= Seq::<usize>::empty());
            }
        }
    }

    /// One schedulable scanning work unit: drives the per-edge protocol over
    /// a whole batch of slots in order and flushes any buffered discoveries
    /// before reporting completion. A buffer holding residual state from a
    /// prior run is a correctness violation, excluded by precondition.
    pub fn scan_slots<F: Fn(usize) -> TraceOutcome>(
        &mut self,
        slots: &mut Vec<V8Edge>,
        tracer: F,
        dispatch: &mut WorkDispatch,
    )
        requires
            old(self).wf(),
            old(self).buffer_view().len() == 0,
            valid_tracer(tracer),
        ensures
            final(self).wf(),
            final(self).flush_threshold() == old(self).flush_threshold(),
            final(self).buffer_view().len() == 0,
            final(slots)@.len() == old(slots)@.len(),
            exists|os: Seq<TraceOutcome>|
                scan_witness(
                    old(slots)@,
                    os,
                    tracer,
                    old(dispatch).units_view(),
                    old(self).flush_threshold(),
                    final(slots)@,
                    final(dispatch).units_view(),
                ),
    {
        let ghost oslots = old(slots)@;
        let ghost ounits = old(dispatch).units_view();
        let ghost cap = old(self).flush_threshold();
        let ghost mut os = Seq::<TraceOutcome>::empty();
        let n = slots.len();
        let mut i: usize = 0;
        while i < n
            invariant
                self.wf(),
                self.flush_threshold() == cap,
                n == slots@.len(),
                n == oslots.len(),
                i <= n,
                os.len() == i,
                valid_tracer(tracer),
                forall|p: int|
                    0 <= p < i ==> call_ensures(tracer, (untag(oslots[p]),), #[trigger] os[p]),
                forall|p: int| i <= p < n ==> slots@[p] == oslots[p],
                ({
                    let folded = scan_fold(oslots.take(i as int), os, Seq::empty(), ounits, cap);
                    slots@.take(i as int) == folded.0 && self.buffer_view() == folded.1
                        && dispatch.units_view() == folded.2
                }),
            decreases n - i,
        {
            let v = slots[i];
            let stripped = strip(v);
            let outcome = tracer(stripped.0);
            let new_v = reattach(outcome.addr, stripped.1);
            slots.set(i, new_v);
            self.record_discovery(outcome, dispatch);
            proof {
                let prev_os = os;
                os = os.push(outcome);
                lemma_scan_fold_extend(
                    oslots.take(i as int),
                    prev_os,
                    Seq::empty(),
                    ounits,
                    cap,
                    outcome,
                );
                assert(oslots.take(i as int + 1).drop_last() =~= oslots.take(i as int));
                assert(oslots.take(i as int + 1).last() == oslots[i as int]);
                assert(new_v == slot_after(oslots[i as int], outcome));
                assert(slots@.take(i as int + 1) =~= slots@.take(i as int).push(new_v));
            }
            i = i + 1;
        }
        proof {
            assert(oslots.take(n as int) =~= oslots);
            assert(slots@.take(n as int) =~= slots@);
        }
        self.flush(dispatch);
        proof {
            assert(scan_witness(
                oslots,
                os,
                tracer,
                ounits,
                cap,
                slots@,
                dispatch.units_view(),
            ));
        }
    }
}

} // verus!
