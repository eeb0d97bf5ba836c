//! The allocator as a whole: the guard against re-entry, the dispatch of
//! requests to the heaps, and the bookkeeping for callers that ask for
//! aligned blocks.
//!
//! The functions decide and keep the books; they touch no memory.  Where a
//! heap needs another region, or a bookmark has to be read or written, the
//! outcome says so and the caller does it.

use crate::bump_heap::{AllocOutcome, BumpAllocator, FreeAction, Placement, HEAP_VIRT_SIZE};
use crate::generic_heap::{calloc_size, free_route, route, ReallocPlan, Route, MAXIMUM_SMALL_SIZE, NULL};
use crate::lfmap::{storable, KeyedMap, WordMap, MAX_CAPACITY};
use crate::small_heap::{region_ok, AllocResult, SmallHeap, ThreadMeta};
use crate::utils::{align_padding, is_pow2, padding_to};
use vstd::prelude::*;

verus! {

/// Capacity that the map of aligned blocks starts with.
pub const RUST_ADDR_CAPACITY: usize = 256;

/// The flag of a thread that tells whether it is inside the allocator.
pub struct InnerCall {
    flag: bool,
}

impl InnerCall {
    /// Whether the thread is inside the allocator.
    pub closed spec fn view(&self) -> bool {
        self.flag
    }

    /// The flag of a thread that is outside the allocator.
    pub fn new() -> (r: Self)
        ensures
            !r@,
    {
        Self { flag: false }
    }

    /// Notes that the thread enters the allocator.  Returns whether it came
    /// from outside; where it did not, the request is one that the allocator
    /// makes of itself.
    pub fn enter(&mut self) -> (from_outside: bool)
        ensures
            from_outside == !old(self)@,
            final(self)@,
    {
        let from_outside: bool = !self.flag;
        self.flag = true;
        from_outside
    }

    /// Notes that the thread leaves the allocator, if `from_outside` says that
    /// the matching `enter` brought it in.
    pub fn leave(&mut self, from_outside: bool)
        ensures
            final(self)@ == (old(self)@ && !from_outside),
    {
        if from_outside {
            self.flag = false;
        }
    }

    /// Whether the thread is inside the allocator.
    pub fn get(&self) -> (r: bool)
        ensures
            r == self@,
    {
        self.flag
    }
}

/// The heap that needs a region.
#[derive(Clone, Copy, Debug, PartialEq, Eq, Structural)]
pub enum RegionOwner {
    /// The bump heap from which the given node carves its superblocks.
    Node(u16),
    /// The bump heap of the large objects and of the allocator itself.
    Internal,
}

/// Outcome of an allocation.
#[derive(Clone, Copy, Debug, PartialEq, Eq, Structural)]
pub enum MallocOutcome {
    /// There is no object: return the null address.
    Null,
    /// An object of the small heap at the given address.
    Small(usize),
    /// An object of the bump heap: write its bookmark and return its address.
    Bump(Placement),
    /// Reserve a region for the given heap, hand it over with
    /// `provide_region`, and ask again.
    NeedRegion(RegionOwner),
}

/// Outcome of the first step of a free.
#[derive(Clone, Copy, Debug, PartialEq, Eq, Structural)]
pub enum FreeOutcome {
    /// Nothing is left to do.
    Done,
    /// The object is none of the small heap's: read the two bookmark words
    /// before it and go on with `nu_free_bump`.
    ReadBookmark,
}

/// What the small heap answered, told from what the caller was told.
pub open spec fn spec_served(r: MallocOutcome) -> AllocResult {
    match r {
        MallocOutcome::Small(addr) => AllocResult::Allocated(addr),
        MallocOutcome::NeedRegion(RegionOwner::Node(n)) => AllocResult::NeedRegion(n),
        _ => AllocResult::Exhausted,
    }
}

/// What the bump heap answered, told from what the caller was told.
pub open spec fn spec_bumped(r: MallocOutcome) -> AllocOutcome {
    match r {
        MallocOutcome::Bump(p) => AllocOutcome::Placed(p),
        MallocOutcome::NeedRegion(_) => AllocOutcome::NeedRegion,
        _ => AllocOutcome::TooLarge,
    }
}

/// What the caller is told of an allocation from the small heap: a small
/// heap that can take no more objects has no object to give.
pub open spec fn small_outcome(served: AllocResult) -> MallocOutcome {
    match served {
        AllocResult::Allocated(addr) => MallocOutcome::Small(addr),
        AllocResult::NeedRegion(n) => MallocOutcome::NeedRegion(RegionOwner::Node(n)),
        AllocResult::Exhausted => MallocOutcome::Null,
    }
}

/// The allocator.
pub struct Nulloc {
    small: SmallHeap,
    bump: BumpAllocator,
    page_size: usize,
}

impl Nulloc {
    /// The small heap.
    pub closed spec fn small(&self) -> SmallHeap {
        self.small
    }

    /// The bump heap.
    pub closed spec fn bump(&self) -> BumpAllocator {
        self.bump
    }

    /// The page size.
    pub closed spec fn spec_page_size(&self) -> usize {
        self.page_size
    }

    /// The heaps are consistent, and the page size is a power of two that a
    /// region holds.
    pub open spec fn wf(&self) -> bool {
        &&& self.small().wf()
        &&& self.bump().wf()
        &&& 2 <= self.spec_page_size() <= HEAP_VIRT_SIZE
        &&& is_pow2(self.spec_page_size() as nat)
    }

    /// An allocator for processors on the given nodes, `cpu_nodes[c]` being
    /// the node of processor `c`.  The superblocks of node `n` are carved from
    /// the region at `regions[n]`; the large objects and the allocator's own
    /// blocks from the region at `internal`.
    pub fn new(
        cpu_nodes: &Vec<u16>,
        regions: &Vec<usize>,
        internal: usize,
        page_size: usize,
    ) -> (r: Self)
        requires
            SmallHeap::can_make(cpu_nodes@, regions@, page_size),
            internal + HEAP_VIRT_SIZE <= usize::MAX,
        ensures
            r.wf(),
            r.spec_page_size() == page_size,
            r.small().spec_nodes() == regions@.len(),
            r.small().spec_cpu_node() == cpu_nodes@,
            r.small().spec_blocks().len() == 0,
            r.small().fresh(),
            forall|n: int|
                0 <= n < regions@.len() ==> r.small().region(n) == regions@[n] && r.small().cursor(n)
                    == regions@[n],
            r.bump()@.spec_base() == internal,
            r.bump()@.spec_tail() == internal,
            forall|i: int|
                0 <= i < crate::bump_heap::BUMP_SIZE_CLASS ==> r.bump()@.free_list(i) == Seq::<usize>::empty(),
    {
        Self {
            small: SmallHeap::new(cpu_nodes, regions, page_size),
            bump: BumpAllocator::new(internal, page_size),
            page_size,
        }
    }

    /// An allocator made as `new` makes it, or nothing where the arguments
    /// are not what `new` asks for.
    pub fn try_new(
        cpu_nodes: &Vec<u16>,
        regions: &Vec<usize>,
        internal: usize,
        page_size: usize,
    ) -> (r: Option<Self>)
        ensures
            (r is Some) == (SmallHeap::can_make(cpu_nodes@, regions@, page_size) && internal
                + HEAP_VIRT_SIZE <= usize::MAX),
            r matches Some(heap) ==> {
                &&& heap.wf()
                &&& heap.spec_page_size() == page_size
                &&& heap.small().spec_nodes() == regions@.len()
                &&& heap.small().spec_cpu_node() == cpu_nodes@
                &&& heap.small().spec_blocks().len() == 0
                &&& heap.small().fresh()
                &&& forall|n: int|
                    0 <= n < regions@.len() ==> heap.small().region(n) == regions@[n]
                        && heap.small().cursor(n) == regions@[n]
                &&& heap.bump()@.spec_base() == internal
                &&& heap.bump()@.spec_tail() == internal
                &&& forall|i: int|
                    0 <= i < crate::bump_heap::BUMP_SIZE_CLASS ==> heap.bump()@.free_list(i) == Seq::<
                        usize,
                    >::empty()
            },
    {
        if internal > usize::MAX - HEAP_VIRT_SIZE || !SmallHeap::check_arguments(
            cpu_nodes,
            regions,
            page_size,
        ) {
            None
        } else {
            Some(Self::new(cpu_nodes, regions, internal, page_size))
        }
    }

    /// The place of a thread that runs on processor `cpu_id`, if there is such
    /// a processor.
    pub fn thread_meta(&self, cpu_id: u16) -> (r: Option<ThreadMeta>)
        requires
            self.wf(),
        ensures
            cpu_id < self.small().spec_cpu_node().len() ==> r == Some(
                ThreadMeta { numa: self.small().spec_cpu_node()[cpu_id as int], cpu: cpu_id },
            ),
            cpu_id >= self.small().spec_cpu_node().len() ==> r is None,
            r matches Some(meta) ==> self.small().knows(meta),
    {
        self.small.thread_meta(cpu_id)
    }

    /// The region that the heap of `owner` works in, or nothing where
    /// `owner` names a node that the allocator does not have.
    pub fn region_of(&self, owner: RegionOwner) -> (r: Option<usize>)
        requires
            self.wf(),
        ensures
            match owner {
                RegionOwner::Internal => r == Some(self.bump()@.spec_base()),
                RegionOwner::Node(n) => if n < self.small().spec_nodes() {
                    r == Some(self.small().region(n as int))
                } else {
                    r is None
                },
            },
    {
        match owner {
            RegionOwner::Internal => Some(self.bump.base()),
            RegionOwner::Node(n) => {
                if (n as usize) < self.small.node_count() {
                    Some(self.small.region_of(n))
                } else {
                    None
                }
            },
        }
    }

    /// Moves the heap of `owner` to the region at `new_base`, if `old_base`
    /// is still its region and the new region can be used.  Returns whether
    /// it did; where it did not, the new region is the caller's to release.
    pub fn provide_region(&mut self, owner: RegionOwner, old_base: usize, new_base: usize) -> (r:
        bool)
        requires
            old(self).wf(),
        ensures
            final(self).wf(),
            final(self).spec_page_size() == old(self).spec_page_size(),
            final(self).small().spec_nodes() == old(self).small().spec_nodes(),
            final(self).small().spec_cpu_node() == old(self).small().spec_cpu_node(),
            final(self).small().spec_blocks() == old(self).small().spec_blocks(),
            match owner {
                RegionOwner::Internal => {
                    &&& r == (old(self).bump()@.spec_base() == old_base && new_base <= usize::MAX
                        - HEAP_VIRT_SIZE)
                    &&& r ==> final(self).bump()@.spec_base() == new_base && final(self).bump()@.spec_tail()
                        == new_base
                    &&& !r ==> final(self).bump()@.spec_base() == old(self).bump()@.spec_base()
                    &&& !r ==> final(self).bump()@.spec_tail() == old(self).bump()@.spec_tail()
                    &&& forall|i: int| final(self).bump()@.free_list(i) == old(self).bump()@.free_list(i)
                    &&& final(self).small() == old(self).small()
                },
                RegionOwner::Node(n) => {
                    &&& r == (n < old(self).small().spec_nodes() && region_ok(new_base)
                        && old(self).small().region(n as int) == old_base
                        && old(self).small().region_is_free(n as int, new_base))
                    &&& n < old(self).small().spec_nodes() && region_ok(new_base) ==> final(self).small().provided(
                        old(self).small(),
                        n,
                        old_base,
                        new_base,
                        r,
                    )
                    &&& !(n < old(self).small().spec_nodes() && region_ok(new_base)) ==> final(self).small()
                        == old(self).small()
                    &&& final(self).bump() == old(self).bump()
                },
            },
    {
        match owner {
            RegionOwner::Internal => {
                if new_base > usize::MAX - HEAP_VIRT_SIZE {
                    false
                } else {
                    self.bump.swap_memory(old_base, new_base)
                }
            },
            RegionOwner::Node(n) => {
                if (n as usize) >= self.small.node_count() || new_base < 2 || new_base
                    > crate::lfmap::PRIME_FLAG - HEAP_VIRT_SIZE || new_base
                    % crate::utils::CACHE_LINE_SIZE != 0 {
                    false
                } else {
                    self.small.provide_region(n, old_base, new_base)
                }
            },
        }
    }

    /// What `nu_malloc` makes of the allocator `before`, with the outcome `r`.
    /// No bytes are the null address.  A request from outside the allocator
    /// for a small object is what the small heap makes of it; any other
    /// request is what the bump heap makes of it, a large object being
    /// rounded up to whole pages first.
    pub open spec fn malloced(
        &self,
        before: Self,
        size: usize,
        in_allocator: bool,
        meta: ThreadMeta,
        r: MallocOutcome,
    ) -> bool {
        let pages = crate::large_heap::spec_total_size(size, before.spec_page_size());
        &&& self.spec_page_size() == before.spec_page_size()
        &&& size == 0 ==> r == MallocOutcome::Null && *self == before
        &&& size > 0 ==> match crate::generic_heap::spec_route(in_allocator, size) {
            Route::Small => {
                &&& self.bump() == before.bump()
                &&& r == small_outcome(spec_served(r))
                &&& self.small().allocated(before.small(), size, meta, spec_served(r))
            },
            Route::Bump => {
                &&& self.small() == before.small()
                &&& r == spec_bump_outcome(spec_bumped(r))
                &&& self.bump()@.placed(before.bump()@, size, 1, spec_bumped(r))
                &&& r matches MallocOutcome::Bump(p) ==> p.addr == p.origin
            },
            Route::Large => {
                &&& self.small() == before.small()
                &&& r == spec_bump_outcome(spec_bumped(r))
                &&& pages <= usize::MAX ==> self.bump()@.placed(before.bump()@, pages as usize, 1, spec_bumped(r))
                &&& pages > usize::MAX ==> r == MallocOutcome::Null && self.bump() == before.bump()
                &&& r matches MallocOutcome::Bump(p) ==> p.addr == p.origin
            },
        }
    }

    /// Allocates `size` bytes for a thread at `meta`, which is inside the
    /// allocator already or not.  No bytes are the null address.  A request
    /// from inside goes to the bump heap; one from outside goes to the small
    /// heap, or by way of the large-object path to the bump heap where it is
    /// more than `MAXIMUM_SMALL_SIZE` bytes.
    pub fn nu_malloc(&mut self, size: usize, in_allocator: bool, meta: ThreadMeta) -> (r:
        MallocOutcome)
        requires
            old(self).wf(),
            old(self).small().knows(meta),
        ensures
            final(self).wf(),
            final(self).malloced(*old(self), size, in_allocator, meta, r),
    {
        if size == 0 {
            return MallocOutcome::Null;
        }
        match route(in_allocator, size) {
            Route::Bump => bump_outcome(self.bump.malloc(size)),
            Route::Large => {
                proof {
                    crate::utils::lemma_padding_to(size as nat, self.page_size as nat);
                }
                bump_outcome(crate::large_heap::allocate(&mut self.bump, size, self.page_size))
            },
            Route::Small => {
                let served = self.small.allocate(size, meta);
                let r = Self::small_result(served);
                assert(spec_served(r) == served);
                r
            },
        }
    }

    /// What the caller is told of an allocation from the small heap.  Where
    /// the heap can take no more objects there is no object.
    fn small_result(served: AllocResult) -> (r: MallocOutcome)
        ensures
            r == small_outcome(served),
    {
        match served {
            AllocResult::Allocated(addr) => MallocOutcome::Small(addr),
            AllocResult::NeedRegion(n) => MallocOutcome::NeedRegion(RegionOwner::Node(n)),
            AllocResult::Exhausted => MallocOutcome::Null,
        }
    }

    /// The first step of freeing the object at `addr` for a thread at `meta`.
    /// The null address is no object.  A thread from outside the allocator
    /// asks the small heap first; an object that the small heap does not know,
    /// and any object freed from inside the allocator, belongs to the bump
    /// heap, whose bookmark the caller has to read.
    pub fn nu_free(&mut self, addr: usize, in_allocator: bool, meta: ThreadMeta) -> (r: FreeOutcome)
        requires
            old(self).wf(),
            old(self).small().knows(meta),
        ensures
            final(self).wf(),
            final(self).spec_page_size() == old(self).spec_page_size(),
            final(self).bump() == old(self).bump(),
            addr == NULL ==> r == FreeOutcome::Done && final(self).small() == old(self).small(),
            addr != NULL && in_allocator ==> r == FreeOutcome::ReadBookmark && final(self).small()
                == old(self).small(),
            addr != NULL && !in_allocator ==> final(self).small().freed(
                old(self).small(),
                addr,
                meta,
                r == FreeOutcome::Done,
            ),
    {
        if addr == NULL {
            return FreeOutcome::Done;
        }
        if in_allocator {
            return FreeOutcome::ReadBookmark;
        }
        if self.small.free(addr, meta) {
            FreeOutcome::Done
        } else {
            FreeOutcome::ReadBookmark
        }
    }

    /// The second step of a free: takes back the block of the object at
    /// `addr`, before which the caller read the bookmark `bookmark` and the
    /// payload start `origin`.  A bookmark whose lowest bit is clear is none
    /// of the bump heap's: the object is unknown and nothing is done.
    pub fn nu_free_bump(&mut self, addr: usize, bookmark: usize, origin: usize) -> (r: FreeAction)
        requires
            old(self).wf(),
        ensures
            final(self).wf(),
            final(self).spec_page_size() == old(self).spec_page_size(),
            final(self).small() == old(self).small(),
            bookmark % 2 == 0 ==> r == FreeAction::Ignored && final(self).bump() == old(self).bump(),
            bookmark % 2 == 1 ==> final(self).bump()@.taken_back(
                old(self).bump()@,
                addr,
                bookmark,
                origin,
                (bookmark - 1) as usize,
                1,
                r,
            ),
    {
        match free_route(bookmark) {
            Route::Bump => crate::large_heap::free(&mut self.bump, addr, bookmark, origin),
            _ => FreeAction::Ignored,
        }
    }

    /// Allocates a block for `nmemb` members of `size` bytes, and tells how
    /// many bytes of it the caller has to clear.  A product that fits no word
    /// is the null address.
    pub fn nu_calloc(
        &mut self,
        nmemb: usize,
        size: usize,
        in_allocator: bool,
        meta: ThreadMeta,
    ) -> (r: (MallocOutcome, usize))
        requires
            old(self).wf(),
            old(self).small().knows(meta),
        ensures
            final(self).wf(),
            nmemb * size > usize::MAX ==> r == (MallocOutcome::Null, 0usize) && *final(self) == *old(self),
            nmemb * size <= usize::MAX ==> final(self).malloced(
                *old(self),
                (nmemb * size) as usize,
                in_allocator,
                meta,
                r.0,
            ),
            r.0 is Small || r.0 is Bump ==> r.1 == nmemb * size,
            r.0 is Null || r.0 is NeedRegion ==> r.1 == 0,
    {
        match calloc_size(nmemb, size) {
            None => (MallocOutcome::Null, 0),
            Some(total_size) => {
                let outcome = self.nu_malloc(total_size, in_allocator, meta);
                match outcome {
                    MallocOutcome::Small(_) | MallocOutcome::Bump(_) => (outcome, total_size),
                    _ => (outcome, 0),
                }
            },
        }
    }

    /// The size of the object at `addr`, if the small heap knows it.  The
    /// size of any other object stands in its bookmark.
    pub fn nu_size_of(&mut self, addr: usize, meta: ThreadMeta) -> (r: Option<usize>)
        requires
            old(self).wf(),
            old(self).small().knows(meta),
        ensures
            final(self).wf(),
            final(self).spec_page_size() == old(self).spec_page_size(),
            final(self).bump() == old(self).bump(),
            final(self).small().sized(old(self).small(), addr, meta, r),
    {
        self.small.size_of(addr, meta)
    }

    /// What to do for a reallocation to `size` bytes of the object at `addr`,
    /// which holds `old_size` bytes.
    pub fn nu_realloc(&self, addr: usize, old_size: usize, size: usize) -> (r: ReallocPlan)
        ensures
            r == crate::generic_heap::spec_realloc_plan(addr, old_size, size),
    {
        crate::generic_heap::realloc(addr, old_size, size)
    }

    /// Gives the superblocks that the processor of the thread at `meta`
    /// prefers to the pools of its node, for a thread that ends.
    pub fn thread_exit(&mut self, meta: ThreadMeta)
        requires
            old(self).wf(),
            old(self).small().knows(meta),
        ensures
            final(self).wf(),
            final(self).spec_page_size() == old(self).spec_page_size(),
            final(self).bump() == old(self).bump(),
            final(self).small().exited(old(self).small(), meta),
    {
        self.small.thread_exit(meta);
    }
}

/// What an outcome of the bump heap means to the caller of the allocator.
pub open spec fn spec_bump_outcome(outcome: AllocOutcome) -> MallocOutcome {
    match outcome {
        AllocOutcome::Placed(p) => MallocOutcome::Bump(p),
        AllocOutcome::NeedRegion => MallocOutcome::NeedRegion(RegionOwner::Internal),
        AllocOutcome::TooLarge => MallocOutcome::Null,
    }
}

/// What an outcome of the bump heap means to the caller of the allocator.
pub fn bump_outcome(outcome: AllocOutcome) -> (r: MallocOutcome)
    ensures
        r == spec_bump_outcome(outcome),
{
    match outcome {
        AllocOutcome::Placed(p) => MallocOutcome::Bump(p),
        AllocOutcome::NeedRegion => MallocOutcome::NeedRegion(RegionOwner::Internal),
        AllocOutcome::TooLarge => MallocOutcome::Null,
    }
}

/// The bookkeeping for callers that ask for aligned blocks: such a block is
/// cut out of a larger one, and the map remembers for each aligned address
/// the address of the block that it was cut from.
pub struct NullocAllocator {
    mapping: WordMap,
}

impl NullocAllocator {
    /// The aligned addresses with the addresses of their blocks.
    pub closed spec fn view(&self) -> Map<usize, usize> {
        self.mapping.contents()
    }

    /// The map is consistent.
    pub closed spec fn wf(&self) -> bool {
        self.mapping.wf()
    }

    /// The number of aligned addresses that the map remembers.
    pub closed spec fn spec_len(&self) -> nat {
        self.mapping.spec_len()
    }

    /// Books that remember nothing yet.
    pub fn new() -> (r: Self)
        ensures
            r.wf(),
            r@ == Map::<usize, usize>::empty(),
    {
        proof {
            crate::lfmap::lemma_capacity_pow2(RUST_ADDR_CAPACITY);
        }
        Self { mapping: WordMap::with_capacity(RUST_ADDR_CAPACITY) }
    }

    /// The size of the block from which `size` bytes aligned to `align` can be
    /// cut, or nothing where it fits no word.
    pub fn request_size(size: usize, align: usize) -> (r: Option<usize>)
        ensures
            r == (if align > 0 && size + align - 1 <= usize::MAX {
                Some((size + align - 1) as usize)
            } else {
                None
            }),
    {
        if align == 0 || size > usize::MAX - (align - 1) {
            None
        } else {
            Some(size + (align - 1))
        }
    }

    /// The first address in the block at `base_addr` that is a multiple of
    /// `align`; the map remembers the block under it.  Nothing is returned,
    /// and nothing remembered, where the map cannot hold the pair.
    pub fn place(&mut self, base_addr: usize, align: usize) -> (r: Option<usize>)
        requires
            old(self).wf(),
            align > 0,
        ensures
            final(self).wf(),
            ({
                let rust_addr = base_addr + padding_to(base_addr as nat, align as nat);
                let fits = storable(base_addr) && rust_addr <= usize::MAX && old(self).spec_len() < MAX_CAPACITY;
                &&& fits ==> r == Some(rust_addr as usize) && final(self)@ == old(self)@.insert(
                    rust_addr as usize,
                    base_addr,
                ) && rust_addr % (align as int) == 0
                &&& !fits ==> r is None && final(self)@ == old(self)@
            }),
    {
        let padding: usize = align_padding(base_addr, align);
        proof {
            crate::utils::lemma_padding_to(base_addr as nat, align as nat);
        }
        if base_addr < 2 || base_addr >= crate::lfmap::PRIME_FLAG || padding > usize::MAX
            - base_addr || self.mapping.len() >= MAX_CAPACITY {
            return None;
        }
        let rust_addr: usize = base_addr + padding;
        self.mapping.insert(rust_addr, base_addr);
        Some(rust_addr)
    }

    /// Forgets the aligned address `addr` and returns the block that it was
    /// cut from.
    pub fn reclaim(&mut self, addr: usize) -> (r: Option<usize>)
        requires
            old(self).wf(),
        ensures
            final(self).wf(),
            final(self)@ == old(self)@.remove(addr),
            r == (if old(self)@.contains_key(addr) {
                Some(old(self)@[addr])
            } else {
                None
            }),
    {
        self.mapping.remove(addr)
    }
}

} // verus!
