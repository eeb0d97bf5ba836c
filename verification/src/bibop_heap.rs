//! A heap over one contiguous range that is cut into one part per node:
//! the arithmetic of the range, and the page that each size class of a thread
//! keeps in reserve.

use crate::utils::{is_pow2, log2_floor, log_2_of, min_power_of_2, next_pow2, MAX_POWER_OF_2};
use vstd::prelude::*;

verus! {

/// The range of the heap.
pub struct Heap {
    addr: usize,
}

impl Heap {
    /// The start of the range.
    pub closed spec fn view(&self) -> usize {
        self.addr
    }

    /// The heap over the range that starts at `addr`.
    pub fn new(addr: usize) -> (r: Self)
        ensures
            r@ == addr,
    {
        Self { addr }
    }

    /// The start of the range.
    pub fn addr(&self) -> (r: usize)
        ensures
            r == self@,
    {
        self.addr
    }
}

/// The page that a size class holds in reserve: objects are cut from it one
/// after the other until it is used up.
pub struct ReservedPage {
    addr: usize,
    pos: usize,
}

impl ReservedPage {
    /// The start of the page, or 0 where there is none.
    pub closed spec fn spec_addr(&self) -> usize {
        self.addr
    }

    /// The address of the next object.
    pub closed spec fn spec_pos(&self) -> usize {
        self.pos
    }

    /// The cursor lies at or behind the start of the page, less than two
    /// pages from it.
    pub closed spec fn wf(&self, page_size: usize) -> bool {
        &&& self.addr <= self.pos
        &&& self.pos - self.addr < 2 * page_size
        &&& self.addr + 2 * page_size <= usize::MAX
    }

    /// No page in reserve.
    pub fn new() -> (r: Self)
        ensures
            r.spec_addr() == 0,
            r.spec_pos() == 0,
            forall|page_size: usize| 0 < page_size <= usize::MAX / 2 ==> r.wf(page_size),
    {
        ReservedPage { addr: 0, pos: 0 }
    }

    /// Cuts an object of `size` bytes from the page, if there is a page, the
    /// object is smaller than a page, and the cursor has not left the page.
    pub fn take(&mut self, size: usize, page_size: usize) -> (r: Option<usize>)
        requires
            old(self).wf(page_size),
            is_pow2(size as nat),
        ensures
            final(self).wf(page_size),
            final(self).spec_addr() == old(self).spec_addr(),
            r == (if size < page_size && old(self).spec_addr() != 0 && old(self).spec_pos() - old(self).spec_addr() < page_size {
                Some(old(self).spec_pos())
            } else {
                None
            }),
            r is Some ==> final(self).spec_pos() == old(self).spec_pos() + size,
            r is None ==> final(self).spec_pos() == old(self).spec_pos(),
    {
        if size >= page_size {
            return None;
        }
        let addr: usize = self.addr;
        if addr == 0 {
            return None;
        }
        let pos: usize = self.pos;
        if pos - addr >= page_size {
            return None;
        }
        self.pos = pos + size;
        Some(pos)
    }

    /// Takes room for an object of `size` bytes from the node's cursor
    /// `bumper`: the object alone where it fills a page or more, else a fresh
    /// page, which is then the page in reserve and whose first object is
    /// returned.
    pub fn allocate_for(&mut self, size: usize, bumper: &mut usize, page_size: usize) -> (r: usize)
        requires
            is_pow2(size as nat),
            page_size > 0,
            *old(bumper) + size + 2 * page_size <= usize::MAX,
            old(self).wf(page_size),
        ensures
            final(self).wf(page_size),
            r == *old(bumper),
            size >= page_size ==> *final(bumper) == *old(bumper) + size && final(self).spec_addr()
                == old(self).spec_addr() && final(self).spec_pos() == old(self).spec_pos(),
            size < page_size ==> *final(bumper) == *old(bumper) + page_size && final(self).spec_addr() == r && final(self).spec_pos() == r + size,
    {
        if size >= page_size {
            let taken: usize = *bumper;
            *bumper = taken + size;
            taken
        } else {
            let new_page_base: usize = *bumper;
            *bumper = new_page_base + page_size;
            self.addr = new_page_base;
            self.pos = new_page_base + size;
            new_page_base
        }
    }
}

/// The size of the part of one node: the memory of the machine, rounded up
/// to a power of two.
pub fn per_node_heap(total_memory: usize) -> (r: usize)
    requires
        total_memory <= MAX_POWER_OF_2,
    ensures
        r == next_pow2(total_memory as nat),
{
    min_power_of_2(total_memory)
}

/// The size of the whole range: the parts of all nodes, rounded up to a
/// power of two.
pub fn total_heap(per_node: usize, num_nodes: usize) -> (r: usize)
    requires
        per_node * num_nodes <= MAX_POWER_OF_2,
    ensures
        r == next_pow2((per_node * num_nodes) as nat),
{
    min_power_of_2(per_node * num_nodes)
}

/// The number of bits by which an offset into the range is shifted to give
/// the number of its node.
pub fn node_shift_bits(total_heap_size: usize, num_nodes: usize) -> (r: usize)
    requires
        0 < num_nodes <= total_heap_size,
    ensures
        r == log2_floor(total_heap_size as nat) - log2_floor(num_nodes as nat),
        r < usize::BITS,
{
    proof {
        lemma_log2_monotonic(num_nodes as nat, total_heap_size as nat);
    }
    log_2_of(total_heap_size) - log_2_of(num_nodes)
}

/// The node in whose part of the range `addr` lies.
pub fn addr_numa_id(addr: usize, heap_base: usize, node_shift_bits: usize) -> (r: usize)
    requires
        heap_base <= addr,
        node_shift_bits < usize::BITS,
    ensures
        r == ((addr - heap_base) as usize) >> node_shift_bits,
{
    (addr - heap_base) >> node_shift_bits
}

/// The logarithm grows with its argument.
pub proof fn lemma_log2_monotonic(a: nat, b: nat)
    requires
        0 < a <= b,
    ensures
        log2_floor(a) <= log2_floor(b),
    decreases b,
{
    if a > 1 {
        lemma_log2_monotonic(a / 2, b / 2);
    }
}

} // verus!
