//! Bookkeeping of the allocation interceptor: the tracking flag, the slot
//! counters of the two fixed-capacity logs, and what one log slot records.
use vstd::prelude::*;
use std::sync::atomic::{AtomicBool, AtomicUsize, Ordering};
use crate::reconcile::{reconcile, reconciles, CapturedAllocation, DeallocationLog, ReconcileError};
use crate::stats::Stats;

verus! {

/// One captured instruction pointer of a call stack.
#[derive(Debug, Clone, Copy)]
pub struct FrameWrapper {
    pub ip: Option<usize>,
}

impl FrameWrapper {
    pub fn new() -> (r: Self)
        ensures
            r.ip is None,
    {
        FrameWrapper { ip: None }
    }
}

/// One slot of the allocation log: the size and address of the allocation,
/// and the first `depth` frames of its call stack, innermost first.
#[derive(Debug, Clone, Copy)]
pub struct AllocationLog<const MAX_FRAME_LENGTH: usize> {
    pub size: usize,
    pub depth: usize,
    pub address: usize,
    pub frames: [FrameWrapper; MAX_FRAME_LENGTH],
}

impl<const MAX_FRAME_LENGTH: usize> AllocationLog<MAX_FRAME_LENGTH> {
    /// Starts recording an allocation in this slot, with an empty stack.
    pub fn begin(&mut self, size: usize, address: usize)
        ensures
            final(self).size == size,
            final(self).address == address,
            final(self).depth == 0,
            final(self).frames == old(self).frames,
    {
        self.size = size;
        self.address = address;
        self.depth = 0;
    }

    /// Appends one frame while there is room; frames past the capacity are
    /// dropped. Returns whether there is room for another frame, so that a
    /// stack walk can stop.
    pub fn push_frame(&mut self, ip: usize) -> (r: bool)
        ensures
            final(self).size == old(self).size,
            final(self).address == old(self).address,
            old(self).depth < MAX_FRAME_LENGTH ==> {
                &&& final(self).depth == old(self).depth + 1
                &&& final(self).frames@ == old(self).frames@.update(
                    old(self).depth as int,
                    FrameWrapper { ip: Some(ip) },
                )
            },
            old(self).depth >= MAX_FRAME_LENGTH ==> final(self).depth == old(self).depth
                && final(self).frames == old(self).frames,
            r == (final(self).depth < MAX_FRAME_LENGTH),
    {
        if self.depth < MAX_FRAME_LENGTH {
            self.frames[self.depth] = FrameWrapper { ip: Some(ip) };
            self.depth = self.depth + 1;
        }
        self.depth < MAX_FRAME_LENGTH
    }
}

/// The slot a claimed log index gives: the index itself below the capacity,
/// none at or past it, where the caller must abort rather than drop the event.
pub fn slot_in_capacity(index: usize, capacity: usize) -> (r: Option<usize>)
    ensures
        r == if index < capacity { Some(index) } else { None::<usize> },
{
    if index < capacity {
        Some(index)
    } else {
        None
    }
}

/// The number of filled slots for a claim counter: the claims themselves,
/// capped at the capacity, since claims past it never fill a slot.
pub fn count_in_capacity(claimed: usize, capacity: usize) -> (r: usize)
    ensures
        r == if claimed < capacity { claimed } else { capacity },
{
    if claimed < capacity {
        claimed
    } else {
        capacity
    }
}

/// Relies on `backtrace::trace`: walks the current stack once and discards
/// it, so that the unwinder's lazy set-up is done before tracking starts.
#[verifier::external_body]
fn warm_up_unwinder() {
    backtrace::trace(|_frame| true);
}

/// The shared state of the interceptor: whether events are being tracked,
/// and the next free index of each log. The logs themselves, of
/// `MAX_LOG_COUNT` slots with up to `MAX_FRAME_LENGTH` frames each, live with
/// whoever installs the interceptor.
pub struct RalloAllocator<const MAX_FRAME_LENGTH: usize, const MAX_LOG_COUNT: usize> {
    pub is_tracking: AtomicBool,
    pub allocation_logs_pointer: AtomicUsize,
    pub deallocation_logs_pointer: AtomicUsize,
}

impl<const MAX_FRAME_LENGTH: usize, const MAX_LOG_COUNT: usize> RalloAllocator<
    MAX_FRAME_LENGTH,
    MAX_LOG_COUNT,
> {
    /// Idle, with both logs empty.
    pub fn new() -> Self {
        RalloAllocator {
            is_tracking: AtomicBool::new(false),
            allocation_logs_pointer: AtomicUsize::new(0),
            deallocation_logs_pointer: AtomicUsize::new(0),
        }
    }

    /// Starts recording allocations, after one discarded stack walk.
    pub fn start_track(&self) {
        warm_up_unwinder();
        self.is_tracking.store(true, Ordering::SeqCst);
    }

    /// Stops recording allocations.
    pub fn stop_track(&self) {
        self.is_tracking.store(false, Ordering::SeqCst);
    }

    /// Whether events are being recorded.
    pub fn is_tracking(&self) -> bool {
        self.is_tracking.load(Ordering::SeqCst)
    }

    /// Claims the next allocation slot; `None` when the log is full.
    pub fn claim_allocation_slot(&self) -> (r: Option<usize>)
        ensures
            r matches Some(i) ==> i < MAX_LOG_COUNT,
    {
        let index = self.allocation_logs_pointer.fetch_add(1, Ordering::SeqCst);
        slot_in_capacity(index, MAX_LOG_COUNT)
    }

    /// Claims the next deallocation slot; `None` when the log is full.
    pub fn claim_deallocation_slot(&self) -> (r: Option<usize>)
        ensures
            r matches Some(i) ==> i < MAX_LOG_COUNT,
    {
        let index = self.deallocation_logs_pointer.fetch_add(1, Ordering::SeqCst);
        slot_in_capacity(index, MAX_LOG_COUNT)
    }

    /// The number of allocation slots filled in this window.
    pub fn allocation_log_count(&self) -> (r: usize)
        ensures
            r <= MAX_LOG_COUNT,
    {
        count_in_capacity(self.allocation_logs_pointer.load(Ordering::SeqCst), MAX_LOG_COUNT)
    }

    /// The number of deallocation slots filled in this window.
    pub fn deallocation_log_count(&self) -> (r: usize)
        ensures
            r <= MAX_LOG_COUNT,
    {
        count_in_capacity(self.deallocation_logs_pointer.load(Ordering::SeqCst), MAX_LOG_COUNT)
    }

    /// Reconciles the window's logs into statistics and empties both logs for
    /// the next window. To be called only while tracking is stopped.
    pub fn calculate_stats(
        &self,
        allocations: Vec<CapturedAllocation>,
        deallocations: &Vec<DeallocationLog>,
    ) -> (r: Result<Stats, ReconcileError>)
        ensures
            reconciles(allocations@, deallocations@, r),
    {
        let r = reconcile(allocations, deallocations);
        self.allocation_logs_pointer.store(0, Ordering::SeqCst);
        self.deallocation_logs_pointer.store(0, Ordering::SeqCst);
        r
    }
}

} // verus!
