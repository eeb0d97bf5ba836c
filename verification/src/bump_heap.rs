//! Bump heap: a cursor that advances through a reserved region, with one
//! free list per size class for the blocks that come back.  It serves the
//! large objects and everything that the allocator needs for itself.
//!
//! A block is laid out as two words of bookmark followed by the object.  The
//! word next to the object records the size of the block with the lowest bit
//! set; the word before it records where the block's payload starts.

use crate::collections::lflist::WordList;
use crate::generic_heap::{NUM_SIZE_CLASS, WORD_SIZE};
use crate::lfmap::{KeyedMap, WordMap};
use crate::utils::{
    align_padding, is_pow2, next_pow2, padding_to, pow2, size_class_index, size_class_index_from_size,
    upper_power_of_2, MAX_POWER_OF_2,
};
use vstd::prelude::*;

verus! {

/// Number of size classes with a free list: twice those of the small heap.
pub const BUMP_SIZE_CLASS: usize = NUM_SIZE_CLASS * 2;

/// Size of a reserved region: 128 MiB.
pub const HEAP_VIRT_SIZE: usize = 0x800_0000;

/// Bytes that precede the payload of a block: the two bookmark words.
pub const BOOKMARK_SIZE: usize = 2 * WORD_SIZE;

/// Capacity that the map of large blocks starts with.
pub const ADDRESS_MAP_CAPACITY: usize = 4096;

/// One size class: its block size and the blocks that came back.
pub struct SizeClass {
    size: usize,
    free_list: WordList,
}

/// The bump heap over one region at a time.
pub struct AllocatorInstance {
    tail: usize,
    base: usize,
    address_map: WordMap,
    sizes: Vec<SizeClass>,
    page_size: usize,
}

/// Where an object was placed.
#[derive(Clone, Copy, Debug, PartialEq, Eq, Structural)]
pub struct Placement {
    /// The address of the object.
    pub addr: usize,
    /// The word to write at `addr - WORD_SIZE`.
    pub bookmark: usize,
    /// The start of the block's payload, to write at `addr - 2 * WORD_SIZE`.
    pub origin: usize,
}

/// Outcome of an allocation.
#[derive(Clone, Copy, Debug, PartialEq, Eq, Structural)]
pub enum AllocOutcome {
    Placed(Placement),
    /// The region is used up: reserve another one, hand it over with
    /// `swap_memory`, and ask again.
    NeedRegion,
    /// The block is larger than a region.
    TooLarge,
}

/// What came of a block that was given back.
#[derive(Clone, Copy, Debug, PartialEq, Eq, Structural)]
pub enum FreeAction {
    /// The bookmark does not fit the block: nothing was done.
    Ignored,
    /// The block went onto the free list of its size class.
    Listed,
    /// The block has no free list: return the pages of the given range,
    /// address and length, to the system.
    ReturnPages(usize, usize),
}

/// The largest block that a free list takes: two to the power
/// `BUMP_SIZE_CLASS`, or the largest word where that is smaller.
pub open spec fn spec_maximum_covered() -> nat {
    if usize::MAX > 0x1_0000_0000int {
        0x1_0000_0000nat
    } else {
        usize::MAX as nat
    }
}

/// The block size for an object of `size` bytes aligned to `align`: the next
/// power of two that leaves room for the padding, and at least the size of the
/// first class.
pub open spec fn spec_actual_size(align: usize, size: usize) -> nat {
    let room = next_pow2((size + align - 1) as nat);
    if room < 2 {
        2
    } else {
        room
    }
}

/// An address that may start the payload of a block: past the two words of
/// a bookmark, and a region short of the end of the address space.
pub open spec fn origin_ok(origin: usize) -> bool {
    BOOKMARK_SIZE <= origin <= usize::MAX - HEAP_VIRT_SIZE
}

/// The largest block that a free list takes.
pub fn maximum_free_list_covered_size() -> (r: usize)
    ensures
        r == spec_maximum_covered(),
{
    let wide: u64 = 0x1_0000_0000;
    if usize::MAX as u64 > wide {
        wide as usize
    } else {
        usize::MAX
    }
}

/// The smallest power of two that holds `size` bytes and the padding that
/// aligns them to `align`.
pub fn actual_size_of(align: usize, size: usize) -> (r: usize)
    requires
        align > 0,
        0 < size + align - 1 <= MAX_POWER_OF_2,
    ensures
        r == next_pow2((size + align - 1) as nat),
{
    upper_power_of_2(size + align - 1)
}

impl SizeClass {
    /// The block size.
    pub closed spec fn spec_size(&self) -> usize {
        self.size
    }

    /// The blocks that came back, oldest first.
    pub closed spec fn free(&self) -> Seq<usize> {
        self.free_list@
    }

    /// The free list is consistent.
    pub closed spec fn wf(&self) -> bool {
        self.free_list.wf()
    }

    /// A class of blocks of `size` bytes with no block to hand out again.
    pub fn new(size: usize) -> (r: Self)
        ensures
            r.wf(),
            r.spec_size() == size,
            r.free() == Seq::<usize>::empty(),
    {
        Self { size, free_list: WordList::new() }
    }
}

impl AllocatorInstance {
    /// The start of the region.
    pub closed spec fn spec_base(&self) -> usize {
        self.base
    }

    /// The cursor: the first byte of the region that is not handed out.
    pub closed spec fn spec_tail(&self) -> usize {
        self.tail
    }

    /// The page size that large blocks are rounded to.
    pub closed spec fn spec_page_size(&self) -> usize {
        self.page_size
    }

    /// The free list of size class `index`, oldest block first.
    pub closed spec fn free_list(&self, index: int) -> Seq<usize> {
        self.sizes@[index].free_list@
    }

    /// The cursor lies in the region, and class `i` holds blocks of
    /// `pow2(i + 1)` bytes.
    pub closed spec fn wf(&self) -> bool {
        &&& self.base <= self.tail <= self.base + HEAP_VIRT_SIZE <= usize::MAX
        &&& 2 <= self.page_size <= HEAP_VIRT_SIZE
        &&& is_pow2(self.page_size as nat)
        &&& self.address_map.wf()
        &&& forall|i: int, k: int|
            0 <= i < BUMP_SIZE_CLASS && 0 <= k < self.sizes@[i].free_list@.len() ==> origin_ok(
                #[trigger] self.sizes@[i].free_list@[k],
            )
        &&& self.sizes@.len() == BUMP_SIZE_CLASS
        &&& forall|i: int| 0 <= i < BUMP_SIZE_CLASS ==> (#[trigger] self.sizes@[i]).wf()
        &&& forall|i: int|
            0 <= i < BUMP_SIZE_CLASS && pow2((i + 1) as nat) <= usize::MAX ==> (
            #[trigger] self.sizes@[i]).size == pow2((i + 1) as nat)
    }

    /// The cursor lies in the region, and the region in the address space.
    pub proof fn lemma_cursor_in_region(&self)
        requires
            self.wf(),
        ensures
            self.spec_base() <= self.spec_tail() <= self.spec_base() + HEAP_VIRT_SIZE <= usize::MAX,
    {
    }

    /// A heap over the region that starts at `region`.
    pub fn new(region: usize, page_size: usize) -> (r: Self)
        requires
            region + HEAP_VIRT_SIZE <= usize::MAX,
            2 <= page_size <= HEAP_VIRT_SIZE,
            is_pow2(page_size as nat),
        ensures
            r.wf(),
            r.spec_base() == region,
            r.spec_tail() == region,
            r.spec_page_size() == page_size,
            forall|i: int| 0 <= i < BUMP_SIZE_CLASS ==> r.free_list(i) == Seq::<usize>::empty(),
    {
        proof {
            crate::lfmap::lemma_capacity_pow2(ADDRESS_MAP_CAPACITY);
        }
        Self {
            base: region,
            tail: region,
            address_map: WordMap::with_capacity(ADDRESS_MAP_CAPACITY),
            sizes: size_classes(),
            page_size,
        }
    }

    /// Takes `size` bytes off the region: the old cursor is the address, and
    /// the cursor moves on by `size`.  Where the region has not that many
    /// bytes left nothing changes and nothing is returned.
    pub fn bump_allocate(&mut self, size: usize) -> (r: Option<usize>)
        requires
            old(self).wf(),
        ensures
            final(self).wf(),
            final(self).spec_base() == old(self).spec_base(),
            final(self).spec_page_size() == old(self).spec_page_size(),
            forall|i: int| final(self).free_list(i) == old(self).free_list(i),
            old(self).spec_tail() + size <= old(self).spec_base() + HEAP_VIRT_SIZE ==> r == Some(
                old(self).spec_tail(),
            ) && final(self).spec_tail() == old(self).spec_tail() + size,
            old(self).spec_tail() + size > old(self).spec_base() + HEAP_VIRT_SIZE ==> r is None
                && final(self).spec_tail() == old(self).spec_tail(),
            r matches Some(a) ==> old(self).spec_base() <= a && a + size <= old(self).spec_base()
                + HEAP_VIRT_SIZE,
    {
        let current_tail: usize = self.tail;
        let upper_bound: usize = self.base + HEAP_VIRT_SIZE;
        if size > upper_bound - current_tail {
            None
        } else {
            self.tail = current_tail + size;
            Some(current_tail)
        }
    }

    /// Moves the heap to the region at `new_base`, if the region that the
    /// caller saw used up, `old_base`, is still the current one.  Returns
    /// whether it did; where it did not, the new region is the caller's to
    /// release.
    pub fn swap_memory(&mut self, old_base: usize, new_base: usize) -> (r: bool)
        requires
            old(self).wf(),
            new_base + HEAP_VIRT_SIZE <= usize::MAX,
        ensures
            final(self).wf(),
            final(self).spec_page_size() == old(self).spec_page_size(),
            forall|i: int| final(self).free_list(i) == old(self).free_list(i),
            r == (old(self).spec_base() == old_base),
            r ==> final(self).spec_base() == new_base && final(self).spec_tail() == new_base,
            !r ==> final(self).spec_base() == old(self).spec_base() && final(self).spec_tail()
                == old(self).spec_tail(),
    {
        if self.base != old_base {
            false
        } else {
            self.base = new_base;
            self.tail = new_base;
            true
        }
    }

    /// The start of the region.
    pub fn base(&self) -> (r: usize)
        ensures
            r == self.spec_base(),
    {
        self.base
    }

    /// The size of the block for an object of `size` bytes aligned to
    /// `align`, and the index of its size class.  A block beyond the size
    /// classes is rounded up to whole pages.
    pub fn size_of_object(&self, align: usize, size: usize) -> (r: (usize, usize))
        requires
            self.wf(),
            align > 0,
            0 < size + align - 1 <= MAX_POWER_OF_2 / 2,
        ensures
            r.1 == size_class_index(next_pow2((size + align - 1) as nat)),
            r.1 < BUMP_SIZE_CLASS ==> r.0 == spec_actual_size(align, size),
            r.1 >= BUMP_SIZE_CLASS ==> r.0 == next_pow2((size + align - 1) as nat) + padding_to(
                next_pow2((size + align - 1) as nat),
                self.spec_page_size() as nat,
            ),
            r.0 >= size + align - 1,
            r.0 % 2 == 0,
            r.0 <= MAX_POWER_OF_2 / 2,
    {
        let room: usize = actual_size_of(align, size);
        let size_class_index: usize = size_class_index_from_size(room);
        proof {
            let v = (size + align - 1) as nat;
            crate::utils::lemma_next_pow2(v);
            lemma_half_word_pow2();
            crate::utils::lemma_next_pow2_bound(v, (MAX_POWER_OF_2 / 2) as nat);
            crate::utils::lemma_is_pow2_log(room as nat);
            crate::utils::lemma_pow2_word_limit();
            reveal_with_fuel(is_pow2, 3);
            if room >= 2 {
                lemma_pow2_multiple(room as nat, 2);
            }
        }
        if size_class_index < self.sizes.len() {
            proof {
                if room >= 2 {
                    assert(size_class_index + 1 == crate::utils::log2_floor(room as nat));
                } else {
                    reveal_with_fuel(pow2, 3);
                }
            }
            (self.sizes[size_class_index].size, size_class_index)
        } else {
            proof {
                // Beyond the size classes a block is larger than a region, and
                // so than a page, of which it is then a multiple.
                crate::utils::lemma_pow2_monotonic(32, crate::utils::log2_floor(room as nat));
                reveal_with_fuel(pow2, 33);
                lemma_pow2_multiple(room as nat, self.page_size as nat);
                crate::utils::lemma_padding_to(room as nat, self.page_size as nat);
            }
            (room + align_padding(room, self.page_size), size_class_index)
        }
    }

    /// What `allocate` makes of the heap `before` for an object of `size`
    /// bytes aligned to `align`, with the outcome `r`: the block comes off
    /// the free list of its size class where that holds one, and off the
    /// region otherwise; a block that fits no region is too large, and a
    /// region without the room for it has to be replaced.
    pub open spec fn placed(&self, before: Self, size: usize, align: usize, r: AllocOutcome) -> bool {
        &&& self.spec_base() == before.spec_base()
        &&& self.spec_page_size() == before.spec_page_size()
        &&& (size + align - 1 > HEAP_VIRT_SIZE / 2) == (r is TooLarge)
        &&& r is TooLarge || r is NeedRegion ==> self.spec_tail() == before.spec_tail()
            && forall|i: int|
            0 <= i < BUMP_SIZE_CLASS ==> self.free_list(i) == before.free_list(i)
        &&& r is Placed ==> ({
            let p = r->Placed_0;
            let class = size_class_index(next_pow2((size + align - 1) as nat)) as int;
            let block = spec_actual_size(align, size);
            &&& class < BUMP_SIZE_CLASS
            &&& p.bookmark == block + 1
            &&& p.bookmark & 1 == 1
            &&& p.bookmark & !1usize >= size
            &&& p.addr == p.origin + padding_to(p.origin as nat, align as nat)
            &&& p.addr % align == 0
            &&& p.addr + size <= p.origin + block
            &&& forall|i: int|
                0 <= i < BUMP_SIZE_CLASS && i != class ==> self.free_list(i) == before.free_list(i)
            &&& before.free_list(class).len() > 0 ==> {
                &&& p.origin == before.free_list(class).last()
                &&& self.free_list(class) == before.free_list(class).drop_last()
                &&& self.spec_tail() == before.spec_tail()
            }
            &&& before.free_list(class).len() == 0 ==> {
                &&& p.origin == before.spec_tail() + BOOKMARK_SIZE
                &&& self.spec_tail() == before.spec_tail() + BOOKMARK_SIZE + block
                &&& self.free_list(class) == before.free_list(class)
            }
        })
        &&& r is NeedRegion ==> ({
            let class = size_class_index(next_pow2((size + align - 1) as nat)) as int;
            &&& before.free_list(class).len() == 0
            &&& before.spec_tail() + BOOKMARK_SIZE + spec_actual_size(align, size) > before.spec_base() + HEAP_VIRT_SIZE
        })
    }

    /// Places an object of `size` bytes aligned to `align`: in a block from
    /// the free list of its size class where there is one, in a block off the
    /// region otherwise.
    pub fn allocate(&mut self, size: usize, align: usize) -> (r: AllocOutcome)
        requires
            old(self).wf(),
            is_pow2(align as nat),
            size > 0,
        ensures
            final(self).wf(),
            final(self).placed(*old(self), size, align, r),
    {
        if size > HEAP_VIRT_SIZE / 2 || align > HEAP_VIRT_SIZE / 2 || size + align - 1
            > HEAP_VIRT_SIZE / 2 {
            // With its bookmark the block would not fit a region.
            return AllocOutcome::TooLarge;
        }
        proof {
            lemma_half_word_pow2();
            lemma_region_quarter();
        }
        let (actual_size, size_class_index) = self.size_of_object(align, size);
        proof {
            let v = (size + align - 1) as nat;
            crate::utils::lemma_next_pow2(v);
            crate::utils::lemma_next_pow2_bound(v, (HEAP_VIRT_SIZE / 2) as nat);
            crate::utils::lemma_log2_region(next_pow2(v));
        }
        assert(size_class_index < BUMP_SIZE_CLASS);
        assert(actual_size <= HEAP_VIRT_SIZE / 2);
        let ghost lists = self.sizes@;
        let reused: Option<usize> = self.sizes[size_class_index].free_list.pop();
        proof {
            assert forall|i: int| 0 <= i < BUMP_SIZE_CLASS && i != size_class_index implies self.sizes@[i]
                == lists[i] by {}
            if reused is Some {
                assert(origin_ok(lists[size_class_index as int].free_list@.last()));
            }
        }
        let origin_addr: usize = match reused {
            Some(origin) => origin,
            None => {
                let size_with_bookmark: usize = actual_size + BOOKMARK_SIZE;
                match self.bump_allocate(size_with_bookmark) {
                    Some(addr) => addr + BOOKMARK_SIZE,
                    None => {
                        return AllocOutcome::NeedRegion;
                    },
                }
            },
        };
        let padding: usize = align_padding(origin_addr, align);
        proof {
            crate::utils::lemma_padding_to(origin_addr as nat, align as nat);
        }
        let final_addr: usize = origin_addr + padding;
        let bookmark: usize = actual_size + 1;
        assert(bookmark & 1 == 1 && bookmark & !1usize == actual_size) by (bit_vector)
            requires
                bookmark == actual_size + 1,
                actual_size % 2 == 0,
        ;
        AllocOutcome::Placed(Placement { addr: final_addr, bookmark, origin: origin_addr })
    }

    /// What `deallocate` makes of the heap `before` for the object at `addr`
    /// with the bookmark `bookmark` and the payload start `origin`, which
    /// the caller says holds `size` bytes aligned to `align`, with the
    /// action `r`: a block that the heap does not accept is ignored, one of
    /// a size class goes onto the free list of the class, and the pages of a
    /// larger one go back to the system.
    pub open spec fn taken_back(
        &self,
        before: Self,
        addr: usize,
        bookmark: usize,
        origin: usize,
        size: usize,
        align: usize,
        r: FreeAction,
    ) -> bool {
        &&& self.spec_base() == before.spec_base()
        &&& self.spec_tail() == before.spec_tail()
        &&& self.spec_page_size() == before.spec_page_size()
        &&& !before.accepts(addr, bookmark, origin, size, align) ==> r == FreeAction::Ignored
            && forall|i: int|
            0 <= i < BUMP_SIZE_CLASS ==> self.free_list(i) == before.free_list(i)
        &&& before.accepts(addr, bookmark, origin, size, align) ==> ({
            let block = (bookmark - 1) as nat;
            let class = size_class_index(block) as int;
            &&& class < BUMP_SIZE_CLASS ==> {
                &&& r == FreeAction::Listed
                &&& self.free_list(class) == before.free_list(class).push(origin)
                &&& forall|i: int|
                    0 <= i < BUMP_SIZE_CLASS && i != class ==> self.free_list(i) == before.free_list(i)
            }
            &&& class >= BUMP_SIZE_CLASS ==> {
                &&& r == FreeAction::ReturnPages(
                    (origin - BOOKMARK_SIZE) as usize,
                    (block + BOOKMARK_SIZE) as usize,
                )
                &&& forall|i: int|
                    0 <= i < BUMP_SIZE_CLASS ==> self.free_list(i) == before.free_list(
                        i,
                    )
            }
        })
    }

    /// Takes back the block of the object at `addr`, which the caller says
    /// holds `size` bytes aligned to `align`, and before which it read the
    /// bookmark `bookmark` and the payload start `origin`.  A bookmark that does
    /// not fit is ignored: the block is lost rather than the heap corrupted.
    pub fn deallocate(
        &mut self,
        addr: usize,
        bookmark: usize,
        origin: usize,
        size: usize,
        align: usize,
    ) -> (r: FreeAction)
        requires
            old(self).wf(),
        ensures
            final(self).wf(),
            final(self).taken_back(*old(self), addr, bookmark, origin, size, align, r),
    {
        if align == 0 || size == 0 || size > MAX_POWER_OF_2 / 4 || align > MAX_POWER_OF_2 / 4 {
            return FreeAction::Ignored;
        }
        let (actual_size, _) = self.size_of_object(align, size);
        if bookmark == 0 || origin > addr || addr - origin > maximum_free_list_covered_size()
            || bookmark - 1 != actual_size || origin < BOOKMARK_SIZE || origin > usize::MAX
            - HEAP_VIRT_SIZE {
            // The bookmark does not belong to such a block.
            return FreeAction::Ignored;
        }
        let size_class_index: usize = size_class_index_from_size(actual_size);
        if size_class_index < self.sizes.len() {
            if self.sizes[size_class_index].free_list.count() == usize::MAX {
                return FreeAction::Ignored;
            }
            let ghost lists = self.sizes@;
            self.sizes[size_class_index].free_list.push(origin);
            proof {
                assert forall|i: int| 0 <= i < BUMP_SIZE_CLASS && i != size_class_index implies self.sizes@[i]
                    == lists[i] by {}
            }
            FreeAction::Listed
        } else {
            self.address_map.remove(addr);
            FreeAction::ReturnPages(origin - BOOKMARK_SIZE, actual_size + BOOKMARK_SIZE)
        }
    }

    /// Whether `deallocate` takes the block back: the caller's layout is one
    /// that a block can have, the bookmark records the size of that block,
    /// the payload starts at or before the object and no further from it than
    /// a free list covers, and the free list of the block's class has room.
    pub open spec fn accepts(
        &self,
        addr: usize,
        bookmark: usize,
        origin: usize,
        size: usize,
        align: usize,
    ) -> bool {
        &&& align > 0
        &&& 0 < size <= MAX_POWER_OF_2 / 4
        &&& align <= MAX_POWER_OF_2 / 4
        &&& bookmark >= 1
        &&& bookmark - 1 == self.spec_block_size(align, size)
        &&& origin <= addr
        &&& addr - origin <= spec_maximum_covered()
        &&& origin_ok(origin)
        &&& size_class_index((bookmark - 1) as nat) < BUMP_SIZE_CLASS ==> self.free_list(
            size_class_index((bookmark - 1) as nat) as int,
        ).len() < usize::MAX
    }

    /// The size of the block for an object of `size` bytes aligned to
    /// `align`: what `size_of_object` computes.
    pub open spec fn spec_block_size(&self, align: usize, size: usize) -> nat {
        let room = next_pow2((size + align - 1) as nat);
        if size_class_index(room) < BUMP_SIZE_CLASS {
            spec_actual_size(align, size)
        } else {
            room + padding_to(room, self.spec_page_size() as nat)
        }
    }
}

/// The size of the object at `addr`, before which the bookmark records the
/// size `bookmark`.
pub fn size_of(addr: usize, bookmark: usize) -> (r: usize)
    ensures
        r == bookmark,
{
    bookmark
}

/// The bump heap that serves the large objects and the allocator itself.
pub struct BumpAllocator {
    inner: AllocatorInstance,
}

impl BumpAllocator {
    /// The heap.
    pub closed spec fn view(&self) -> AllocatorInstance {
        self.inner
    }

    /// The heap is consistent.
    pub closed spec fn wf(&self) -> bool {
        self.inner.wf()
    }

    /// A bump heap over the region that starts at `region`.
    pub fn new(region: usize, page_size: usize) -> (r: Self)
        requires
            region + HEAP_VIRT_SIZE <= usize::MAX,
            2 <= page_size <= HEAP_VIRT_SIZE,
            is_pow2(page_size as nat),
        ensures
            r.wf(),
            r@.spec_base() == region,
            r@.spec_tail() == region,
            r@.spec_page_size() == page_size,
            forall|i: int| 0 <= i < BUMP_SIZE_CLASS ==> r@.free_list(i) == Seq::<usize>::empty(),
    {
        Self { inner: AllocatorInstance::new(region, page_size) }
    }

    /// The start of the region that the heap works in.
    pub fn base(&self) -> (r: usize)
        ensures
            r == self@.spec_base(),
    {
        self.inner.base()
    }

    /// Moves the heap to the region at `new_base`, if `old_base` is still its
    /// region.  Returns whether it did.
    pub fn swap_memory(&mut self, old_base: usize, new_base: usize) -> (r: bool)
        requires
            old(self).wf(),
            new_base + HEAP_VIRT_SIZE <= usize::MAX,
        ensures
            final(self).wf(),
            final(self)@.spec_page_size() == old(self)@.spec_page_size(),
            forall|i: int| final(self)@.free_list(i) == old(self)@.free_list(i),
            r == (old(self)@.spec_base() == old_base),
            r ==> final(self)@.spec_base() == new_base && final(self)@.spec_tail() == new_base,
            !r ==> final(self)@.spec_base() == old(self)@.spec_base() && final(self)@.spec_tail()
                == old(self)@.spec_tail(),
    {
        self.inner.swap_memory(old_base, new_base)
    }

    /// Places an object of `size` bytes aligned to `align`: what the heap's
    /// `allocate` does.
    pub fn allocate(&mut self, size: usize, align: usize) -> (r: AllocOutcome)
        requires
            old(self).wf(),
            is_pow2(align as nat),
            size > 0,
        ensures
            final(self).wf(),
            final(self)@.placed(old(self)@, size, align, r),
    {
        self.inner.allocate(size, align)
    }

    /// Takes back the block of the object at `addr`, which the caller says
    /// holds `size` bytes aligned to `align`: what the heap's `deallocate`
    /// does.
    pub fn deallocate(
        &mut self,
        addr: usize,
        bookmark: usize,
        origin: usize,
        size: usize,
        align: usize,
    ) -> (r: FreeAction)
        requires
            old(self).wf(),
        ensures
            final(self).wf(),
            final(self)@.taken_back(old(self)@, addr, bookmark, origin, size, align, r),
    {
        self.inner.deallocate(addr, bookmark, origin, size, align)
    }

    /// Places an object of `size` bytes: `allocate` for a layout of
    /// alignment 1.
    pub fn malloc(&mut self, size: usize) -> (r: AllocOutcome)
        requires
            old(self).wf(),
            size > 0,
        ensures
            final(self).wf(),
            final(self)@.placed(old(self)@, size, 1, r),
            r matches AllocOutcome::Placed(p) ==> p.addr == p.origin,
    {
        proof {
            reveal_with_fuel(is_pow2, 2);
            crate::utils::lemma_padding_to(0, 1);
        }
        let r = self.inner.allocate(size, 1);
        proof {
            if r is Placed {
                assert(padding_to(r->Placed_0.origin as nat, 1) == 0);
            }
        }
        r
    }

    /// Takes back the block of the object at `addr`, before which the caller
    /// read the bookmark `bookmark` and the payload start `origin`:
    /// `deallocate` for a layout of the size that the bookmark records and
    /// alignment 1.
    pub fn free(&mut self, addr: usize, bookmark: usize, origin: usize) -> (r: FreeAction)
        requires
            old(self).wf(),
        ensures
            final(self).wf(),
            final(self)@.taken_back(
                old(self)@,
                addr,
                bookmark,
                origin,
                (bookmark - bookmark % 2) as usize,
                1,
                r,
            ),
    {
        let (size, _) = crate::generic_heap::object_bookmark(bookmark);
        self.inner.deallocate(addr, bookmark, origin, size_of(addr, size), 1)
    }

    /// What to do for a reallocation to `size` bytes of the object at `addr`,
    /// before which the caller read the bookmark `bookmark`.
    pub fn realloc(&self, addr: usize, bookmark: usize, size: usize) -> (r: crate::generic_heap::ReallocPlan)
        ensures
            r == crate::generic_heap::spec_realloc_plan(
                addr,
                (bookmark - bookmark % 2) as usize,
                size,
            ),
    {
        let (old_size, _) = crate::generic_heap::object_bookmark(bookmark);
        crate::generic_heap::realloc(addr, size_of(addr, old_size), size)
    }
}

/// The size classes of the bump heap: blocks of 2, 4, 8, ... bytes.
pub fn size_classes() -> (r: Vec<SizeClass>)
    ensures
        r@.len() == BUMP_SIZE_CLASS,
        forall|i: int| 0 <= i < BUMP_SIZE_CLASS ==> (#[trigger] r@[i]).wf() && r@[i].free()
            == Seq::<usize>::empty(),
        forall|i: int|
            0 <= i < BUMP_SIZE_CLASS && pow2((i + 1) as nat) <= usize::MAX ==> (#[trigger] r@[i]).spec_size()
                == pow2((i + 1) as nat),
{
    let mut data: Vec<SizeClass> = Vec::new();
    let mut size: usize = 2;
    let mut i: usize = 0;
    proof {
        reveal_with_fuel(pow2, 3);
    }
    while i < BUMP_SIZE_CLASS
        invariant
            0 <= i <= BUMP_SIZE_CLASS,
            data@.len() == i,
            pow2((i + 1) as nat) <= usize::MAX ==> size == pow2((i + 1) as nat),
            forall|j: int| 0 <= j < i ==> (#[trigger] data@[j]).wf() && data@[j].free() == Seq::<
                usize,
            >::empty(),
            forall|j: int|
                0 <= j < i && pow2((j + 1) as nat) <= usize::MAX ==> (#[trigger] data@[j]).spec_size()
                    == pow2((j + 1) as nat),
        decreases BUMP_SIZE_CLASS - i,
    {
        data.push(SizeClass::new(size));
        proof {
            crate::utils::lemma_pow2_positive((i + 1) as nat);
            assert(pow2((i + 2) as nat) == 2 * pow2((i + 1) as nat));
        }
        // The last class of a machine with short words lies beyond the
        // address space and is never chosen.
        size = if size <= usize::MAX / 2 {
            size * 2
        } else {
            size
        };
        i = i + 1;
    }
    data
}

proof fn lemma_half_word_pow2()
    ensures
        is_pow2((MAX_POWER_OF_2 / 2) as nat),
        is_pow2(MAX_POWER_OF_2 as nat),
        HEAP_VIRT_SIZE <= MAX_POWER_OF_2 / 2,
{
    crate::utils::lemma_pow2_word_limit();
    crate::utils::lemma_pow2_is_pow2((usize::BITS - 1) as nat);
    crate::utils::lemma_pow2_is_pow2((usize::BITS - 2) as nat);
    assert(pow2((usize::BITS - 1) as nat) == 2 * pow2((usize::BITS - 2) as nat));
}

proof fn lemma_region_quarter()
    ensures
        is_pow2((HEAP_VIRT_SIZE / 2) as nat),
{
    reveal_with_fuel(is_pow2, 28);
}

/// A power of two is a multiple of every smaller power of two.
pub proof fn lemma_pow2_multiple(a: nat, b: nat)
    requires
        is_pow2(a),
        is_pow2(b),
        a >= b,
    ensures
        a % b == 0,
    decreases b,
{
    if b > 1 {
        assert(a > 1);
        lemma_pow2_multiple(a / 2, b / 2);
        let x = (a / 2) as int;
        let y = (b / 2) as int;
        let q = x / y;
        vstd::arithmetic::div_mod::lemma_fundamental_div_mod(x, y);
        assert(x == y * q);
        assert(a == 2 * x && b == 2 * y);
        assert(a == q * b) by (nonlinear_arith)
            requires
                a == 2 * x,
                b == 2 * y,
                x == y * q,
        ;
        vstd::arithmetic::div_mod::lemma_mod_multiples_basic(q, b as int);
    } else {
        assert(a % 1 == 0);
    }
}

} // verus!
