//! Heap for the objects that are too large for the size classes: they are
//! rounded up to whole pages and taken from the bump heap.

use crate::bump_heap::{AllocOutcome, BumpAllocator, FreeAction, HEAP_VIRT_SIZE};
use crate::utils::{align_padding, is_pow2, padding_to};
use vstd::prelude::*;

verus! {

/// The number of bytes that a large object of `size` bytes takes: `size`
/// rounded up to a multiple of the page size.
pub open spec fn spec_total_size(size: usize, page_size: usize) -> nat {
    size as nat + padding_to(size as nat, page_size as nat)
}

/// Places a large object of `size` bytes: whole pages from the bump heap.
/// An object whose pages would fill a region is too large.
pub fn allocate(heap: &mut BumpAllocator, size: usize, page_size: usize) -> (r: AllocOutcome)
    requires
        old(heap).wf(),
        size > 0,
        2 <= page_size <= HEAP_VIRT_SIZE,
    ensures
        final(heap).wf(),
        (spec_total_size(size, page_size) > HEAP_VIRT_SIZE / 2) == (r is TooLarge),
        spec_total_size(size, page_size) <= usize::MAX ==> final(heap)@.placed(
            old(heap)@,
            spec_total_size(size, page_size) as usize,
            1,
            r,
        ),
        spec_total_size(size, page_size) > usize::MAX ==> *final(heap) == *old(heap),
        r matches AllocOutcome::Placed(p) ==> p.addr == p.origin,
{
    if size >= HEAP_VIRT_SIZE {
        proof {
            crate::utils::lemma_padding_to(size as nat, page_size as nat);
        }
        return AllocOutcome::TooLarge;
    }
    let padding: usize = align_padding(size, page_size);
    let total_size: usize = size + padding;
    if total_size >= HEAP_VIRT_SIZE {
        return AllocOutcome::TooLarge;
    }
    heap.malloc(total_size)
}

/// Takes back the large object at `addr`, before which the caller read the
/// bookmark `bookmark` and the payload start `origin`.
pub fn free(heap: &mut BumpAllocator, addr: usize, bookmark: usize, origin: usize) -> (r: FreeAction)
    requires
        old(heap).wf(),
    ensures
        final(heap).wf(),
        final(heap)@.taken_back(
            old(heap)@,
            addr,
            bookmark,
            origin,
            (bookmark - bookmark % 2) as usize,
            1,
            r,
        ),
{
    heap.free(addr, bookmark, origin)
}

/// The size of the large object at `addr`, before which the bookmark records
/// the size `bookmark`.
pub fn size_of(addr: usize, bookmark: usize) -> (r: usize)
    ensures
        r == bookmark,
{
    crate::bump_heap::size_of(addr, bookmark)
}

} // verus!
