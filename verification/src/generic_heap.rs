//! What the heaps share: the size classes, the bookmark that precedes every
//! object, and the decisions that route a request to one of the heaps.

use crate::utils::{is_pow2, pow2};
use vstd::prelude::*;

verus! {

/// Number of size classes of the small heap.
pub const NUM_SIZE_CLASS: usize = 16;

/// The largest object that the small heap serves: the size of its last class.
pub const MAXIMUM_SMALL_SIZE: usize = 65536;

/// Size of a machine word in bytes.
pub const WORD_SIZE: usize = 8;

/// The bit of a bookmark that tells the heap an object came from: set for the
/// bump heap, clear for the small heap.
pub const BOOKMARK_TYPE_FLAG_MASK: usize = 1;

/// The null address.
pub const NULL: usize = 0;

/// What the small heap knows of an object.
#[derive(Clone, Copy, Debug, PartialEq, Eq, Structural)]
pub struct ObjectMeta {
    pub size: usize,
    pub tid: usize,
}

/// The heap that serves a request.
#[derive(Clone, Copy, Debug, PartialEq, Eq, Structural)]
pub enum Route {
    /// The size-classed heap, for a request from outside the allocator.
    Small,
    /// The bump heap by way of the large-object path, for a request from
    /// outside the allocator that is too large for the size classes.
    Large,
    /// The bump heap, for a request that the allocator makes of itself.
    Bump,
}

/// What a reallocation has to do.
#[derive(Clone, Copy, Debug, PartialEq, Eq, Structural)]
pub enum ReallocPlan {
    /// There is no old block: allocate the given size.
    Allocate(usize),
    /// The new size is 0: free the old block and return the null address.
    Release,
    /// The old block is large enough: return it unchanged.
    Keep,
    /// Allocate the new size, copy the given number of bytes over, and free
    /// the old block.
    Move(usize),
}

/// The bookmark word of an object of `size` bytes.
pub open spec fn spec_bookmark(size: usize, is_bump: bool) -> usize {
    if is_bump {
        (size + 1) as usize
    } else {
        size
    }
}

/// The route of a request of `size` bytes, made while the calling thread is
/// inside the allocator or not.
pub open spec fn spec_route(in_allocator: bool, size: usize) -> Route {
    if in_allocator {
        Route::Bump
    } else if size > MAXIMUM_SMALL_SIZE {
        Route::Large
    } else {
        Route::Small
    }
}

/// What to do for a reallocation of the block at `addr`, which holds
/// `old_size` bytes, to `size` bytes.
pub open spec fn spec_realloc_plan(addr: usize, old_size: usize, size: usize) -> ReallocPlan {
    if addr == NULL {
        ReallocPlan::Allocate(size)
    } else if size == 0 {
        ReallocPlan::Release
    } else if old_size >= size {
        ReallocPlan::Keep
    } else {
        ReallocPlan::Move(old_size)
    }
}

/// The number of bytes that precede an object for its bookmark.
pub fn bookmark_size() -> (r: usize)
    ensures
        r == WORD_SIZE,
{
    WORD_SIZE
}

/// The bookmark word of an object of `size` bytes: the size, with the lowest
/// bit set where the object comes from the bump heap.
pub fn make_bookmark(size: usize, is_bump: bool) -> (r: usize)
    requires
        size % 2 == 0,
    ensures
        r == spec_bookmark(size, is_bump),
        r & BOOKMARK_TYPE_FLAG_MASK == (if is_bump {
            1usize
        } else {
            0usize
        }),
        r & !BOOKMARK_TYPE_FLAG_MASK == size,
{
    if is_bump {
        let r: usize = size + 1;
        assert(r & 1 == 1 && r & !1usize == size) by (bit_vector)
            requires
                r == size + 1,
                size % 2 == 0,
        ;
        r
    } else {
        assert(size & 1 == 0 && size & !1usize == size) by (bit_vector)
            requires
                size % 2 == 0,
        ;
        size
    }
}

/// Reads the bookmark `word` that precedes an object: the size that it
/// records, and whether the object comes from the bump heap.
pub fn object_bookmark(word: usize) -> (r: (usize, bool))
    ensures
        r.0 == word & !BOOKMARK_TYPE_FLAG_MASK,
        r.1 == (word & BOOKMARK_TYPE_FLAG_MASK == 1),
        r.0 == word - word % 2,
        r.1 == (word % 2 == 1),
{
    assert(word & !1usize == word - word % 2) by (bit_vector);
    assert((word & 1 == 1) == (word % 2 == 1)) by (bit_vector);
    (word & !BOOKMARK_TYPE_FLAG_MASK, word & BOOKMARK_TYPE_FLAG_MASK == 1)
}

/// A bookmark reads back as the size and origin that made it.
pub proof fn lemma_bookmark_round_trip(size: usize, is_bump: bool)
    requires
        size % 2 == 0,
        size < usize::MAX,
    ensures
        spec_bookmark(size, is_bump) - spec_bookmark(size, is_bump) % 2 == size,
        (spec_bookmark(size, is_bump) % 2 == 1) == is_bump,
{
}

/// The heap that serves a request of `size` bytes.  A thread that is inside
/// the allocator already is served by the bump heap, so that the small heap
/// never enters itself.
pub fn route(in_allocator: bool, size: usize) -> (r: Route)
    ensures
        r == spec_route(in_allocator, size),
{
    if in_allocator {
        Route::Bump
    } else if size > MAXIMUM_SMALL_SIZE {
        Route::Large
    } else {
        Route::Small
    }
}

/// The heap that takes back an object whose bookmark is `word`: the bump heap
/// where the lowest bit is set, the small heap otherwise.
pub fn free_route(word: usize) -> (r: Route)
    ensures
        r == (if word % 2 == 1 {
            Route::Bump
        } else {
            Route::Small
        }),
{
    if object_bookmark(word).1 {
        Route::Bump
    } else {
        Route::Small
    }
}

/// What to do for a reallocation of the block at `addr`, which holds
/// `old_size` bytes, to `size` bytes.
pub fn realloc(addr: usize, old_size: usize, size: usize) -> (r: ReallocPlan)
    ensures
        r == spec_realloc_plan(addr, old_size, size),
{
    if addr == NULL {
        ReallocPlan::Allocate(size)
    } else if size == 0 {
        ReallocPlan::Release
    } else if old_size >= size {
        ReallocPlan::Keep
    } else {
        ReallocPlan::Move(old_size)
    }
}

/// The number of bytes of a zeroed block of `nmemb` members of `size` bytes,
/// or nothing where the product does not fit a word.
pub fn calloc_size(nmemb: usize, size: usize) -> (r: Option<usize>)
    ensures
        nmemb * size <= usize::MAX ==> r == Some((nmemb * size) as usize),
        nmemb * size > usize::MAX ==> r is None,
{
    nmemb.checked_mul(size)
}

/// The size of the size class `tier`.
pub open spec fn class_size(tier: nat) -> nat {
    pow2(tier + 1)
}

/// The sizes of the classes are the powers of two from 2 on, so each is
/// twice the one before, and the last small one is `MAXIMUM_SMALL_SIZE`.
pub proof fn lemma_class_sizes(tier: nat)
    ensures
        class_size(0) == 2,
        class_size(tier + 1) == 2 * class_size(tier),
        class_size(tier) < class_size(tier + 1),
        is_pow2(class_size(tier)),
        class_size((NUM_SIZE_CLASS - 1) as nat) == MAXIMUM_SMALL_SIZE,
{
    reveal_with_fuel(pow2, 18);
    crate::utils::lemma_pow2_positive(tier + 1);
    crate::utils::lemma_pow2_is_pow2(tier + 1);
}

} // verus!
