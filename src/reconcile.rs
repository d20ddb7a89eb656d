//! Reconciliation: raw allocation and deallocation logs of one tracked window
//! turned into resolved records, each allocation paired with the
//! deallocation at its address.
use vstd::prelude::*;
use crate::stats::{Allocation, FrameInfo, Stats};

verus! {

/// An allocation event as captured, with its frames already resolved,
/// innermost first.
#[derive(Debug, Clone)]
pub struct CapturedAllocation {
    pub size: usize,
    pub address: usize,
    pub frames: Vec<FrameInfo>,
}

/// A deallocation event as captured.
#[derive(Debug, Clone, Copy, PartialEq, Eq, Structural)]
pub struct DeallocationLog {
    pub size: usize,
    pub address: usize,
}

/// Why the logs of a window could not be reconciled.
#[derive(Debug, Clone, Copy, PartialEq, Eq, Structural)]
pub enum ReconcileError {
    /// Two deallocations share an address, or one matches no allocation.
    DeallocationMismatch,
}

/// The size of the first deallocation at `address`, zero when there is none.
pub open spec fn matched_size(d: Seq<DeallocationLog>, address: usize) -> usize
    decreases d.len(),
{
    if d.len() == 0 {
        0
    } else if d[0].address == address {
        d[0].size
    } else {
        matched_size(d.drop_first(), address)
    }
}

/// Some allocation of `a` is at `address`.
pub open spec fn allocated_at(a: Seq<CapturedAllocation>, address: usize) -> bool {
    exists|i: int| 0 <= i < a.len() && a[i].address == address
}

/// Every deallocation is consumed by an allocation at its address, and no
/// two deallocations share an address.
pub open spec fn deallocations_consistent(
    a: Seq<CapturedAllocation>,
    d: Seq<DeallocationLog>,
) -> bool {
    &&& forall|j: int, k: int| 0 <= j < k < d.len() ==> d[j].address != d[k].address
    &&& forall|j: int| 0 <= j < d.len() ==> allocated_at(a, #[trigger] d[j].address)
}

/// `r` is the record of the captured allocation `c`: its size, its address,
/// the size of its deallocation, and its frames outermost first.
pub open spec fn reconciled_record(
    c: CapturedAllocation,
    d: Seq<DeallocationLog>,
    r: Allocation,
) -> bool {
    &&& r.allocation_size == c.size
    &&& r.address == c.address
    &&& r.deallocation_size == matched_size(d, c.address)
    &&& r.stack@ == c.frames@.reverse()
}

/// `r` reconciles the logs `a` and `d`: the records of `a`, most recent first,
/// when the deallocations are consistent, else the mismatch error.
pub open spec fn reconciles(
    a: Seq<CapturedAllocation>,
    d: Seq<DeallocationLog>,
    r: Result<Stats, ReconcileError>,
) -> bool {
    match r {
        Ok(stats) => {
            &&& deallocations_consistent(a, d)
            &&& stats.allocations@.len() == a.len()
            &&& forall|k: int|
                0 <= k < a.len() ==> reconciled_record(
                    #[trigger] a[a.len() - 1 - k],
                    d,
                    stats.allocations@[k],
                )
        },
        Err(e) => !deallocations_consistent(a, d),
    }
}

/// The size of the first deallocation at `address`, zero when there is none.
pub fn deallocation_size_at(d: &Vec<DeallocationLog>, address: usize) -> (r: usize)
    ensures
        r == matched_size(d@, address),
{
    let mut j: usize = 0;
    assert(d@.subrange(0, d@.len() as int) =~= d@);
    while j < d.len()
        invariant
            j <= d@.len(),
            matched_size(d@, address) == matched_size(d@.subrange(j as int, d@.len() as int), address),
        decreases d@.len() - j,
    {
        let ghost rest = d@.subrange(j as int, d@.len() as int);
        assert(rest.drop_first() =~= d@.subrange(j + 1, d@.len() as int));
        if d[j].address == address {
            return d[j].size;
        }
        j = j + 1;
    }
    assert(d@.subrange(j as int, d@.len() as int).len() == 0);
    0
}

fn has_allocation_at(a: &Vec<CapturedAllocation>, address: usize) -> (r: bool)
    ensures
        r == allocated_at(a@, address),
{
    let mut i: usize = 0;
    while i < a.len()
        invariant
            i <= a@.len(),
            forall|q: int| 0 <= q < i ==> a@[q].address != address,
        decreases a@.len() - i,
    {
        if a[i].address == address {
            return true;
        }
        i = i + 1;
    }
    false
}

/// Whether the deallocations are consistent with the allocations.
fn consistent(a: &Vec<CapturedAllocation>, d: &Vec<DeallocationLog>) -> (r: bool)
    ensures
        r == deallocations_consistent(a@, d@),
{
    let mut j: usize = 0;
    while j < d.len()
        invariant
            j <= d@.len(),
            forall|x: int, y: int| 0 <= x < y < j ==> d@[x].address != d@[y].address,
            forall|x: int| 0 <= x < j ==> allocated_at(a@, #[trigger] d@[x].address),
        decreases d@.len() - j,
    {
        let mut k: usize = 0;
        while k < j
            invariant
                j < d@.len(),
                k <= j,
                forall|x: int| 0 <= x < k ==> d@[x].address != d@[j as int].address,
            decreases j - k,
        {
            if d[k].address == d[j].address {
                return false;
            }
            k = k + 1;
        }
        if !has_allocation_at(a, d[j].address) {
            return false;
        }
        j = j + 1;
    }
    true
}

/// The frames in the opposite order.
fn reversed(v: Vec<FrameInfo>) -> (r: Vec<FrameInfo>)
    ensures
        r@ == v@.reverse(),
{
    let ghost orig = v@;
    let mut rest = v;
    let mut out: Vec<FrameInfo> = Vec::new();
    while rest.len() > 0
        invariant
            rest@ == orig.subrange(0, orig.len() - out@.len()),
            out@ == orig.reverse().subrange(0, out@.len() as int),
            out@.len() <= orig.len(),
        decreases rest@.len(),
    {
        let f = rest.pop().unwrap();
        out.push(f);
        assert(out@ =~= orig.reverse().subrange(0, out@.len() as int));
        assert(rest@ =~= orig.subrange(0, orig.len() - out@.len()));
    }
    assert(out@ =~= orig.reverse());
    out
}

/// Pairs each allocation with the deallocation at its address and returns
/// the records most recent first, frames outermost first. Fails when a
/// deallocation matches no allocation or shares its address with another.
pub fn reconcile(allocations: Vec<CapturedAllocation>, deallocations: &Vec<DeallocationLog>) -> (r:
    Result<Stats, ReconcileError>)
    ensures
        reconciles(allocations@, deallocations@, r),
{
    if !consistent(&allocations, deallocations) {
        return Err(ReconcileError::DeallocationMismatch);
    }
    let ghost orig = allocations@;
    let mut rest = allocations;
    let mut out: Vec<Allocation> = Vec::new();
    while rest.len() > 0
        invariant
            deallocations_consistent(orig, deallocations@),
            out@.len() <= orig.len(),
            rest@ == orig.subrange(0, orig.len() - out@.len()),
            forall|k: int|
                0 <= k < out@.len() ==> reconciled_record(
                    #[trigger] orig[orig.len() - 1 - k],
                    deallocations@,
                    out@[k],
                ),
        decreases rest@.len(),
    {
        let c = rest.pop().unwrap();
        let ghost k = out@.len() as int;
        assert(c == orig[orig.len() - 1 - k]);
        let deallocation_size = deallocation_size_at(deallocations, c.address);
        let stack = reversed(c.frames);
        out.push(
            Allocation {
                allocation_size: c.size,
                deallocation_size,
                address: c.address,
                stack,
            },
        );
        assert(rest@ =~= orig.subrange(0, orig.len() - out@.len()));
    }
    Ok(Stats { allocations: out })
}

} // verus!
