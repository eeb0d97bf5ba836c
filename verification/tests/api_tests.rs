use nulloc::api::{
    bump_outcome, FreeOutcome, InnerCall, MallocOutcome, Nulloc, NullocAllocator, RegionOwner,
};
use nulloc::bump_heap::{AllocOutcome, FreeAction, Placement, BOOKMARK_SIZE, HEAP_VIRT_SIZE};
use nulloc::generic_heap::{
    bookmark_size, calloc_size, free_route, make_bookmark, object_bookmark, realloc, route,
    ObjectMeta, ReallocPlan, Route,
};
use nulloc::large_heap;
use nulloc::bump_heap::BumpAllocator;
use nulloc::small_heap::SUPERBLOCK_HEADER;

const NODE_REGION: usize = 0x7000_0000_0000;
const INTERNAL: usize = 0x7200_0000_0000;
const PAGE: usize = 4096;

fn allocator() -> Nulloc {
    Nulloc::new(&vec![0], &vec![NODE_REGION], INTERNAL, PAGE)
}

#[test]
fn malloc_of_nothing_is_null() {
    let mut heap = allocator();
    let meta = heap.thread_meta(0).unwrap();
    assert_eq!(heap.nu_malloc(0, false, meta), MallocOutcome::Null);
    assert_eq!(heap.nu_malloc(0, true, meta), MallocOutcome::Null);
    assert_eq!(heap.nu_free(0, false, meta), FreeOutcome::Done);
}

#[test]
fn requests_are_routed_by_size_and_origin() {
    let mut heap = allocator();
    let meta = heap.thread_meta(0).unwrap();
    assert_eq!(heap.nu_malloc(9, false, meta), MallocOutcome::Small(NODE_REGION + SUPERBLOCK_HEADER));
    // The same request from inside the allocator goes to the bump heap.
    let inner = heap.nu_malloc(9, true, meta);
    assert_eq!(
        inner,
        MallocOutcome::Bump(Placement {
            addr: INTERNAL + BOOKMARK_SIZE,
            bookmark: 17,
            origin: INTERNAL + BOOKMARK_SIZE
        })
    );
    // More than the largest class goes to the bump heap in whole pages.
    match heap.nu_malloc(65537, false, meta) {
        MallocOutcome::Bump(p) => {
            assert_eq!(p.bookmark, 131073);
            assert_eq!(p.addr, p.origin);
        }
        other => panic!("{:?}", other),
    }
    assert_eq!(heap.nu_malloc(HEAP_VIRT_SIZE, false, meta), MallocOutcome::Null);
    assert_eq!(route(false, 65536), Route::Small);
    assert_eq!(route(false, 65537), Route::Large);
    assert_eq!(route(true, 1), Route::Bump);
}

#[test]
fn calloc_asks_for_the_product() {
    let mut heap = allocator();
    let meta = heap.thread_meta(0).unwrap();
    match heap.nu_calloc(1024, 8, false, meta) {
        (MallocOutcome::Small(_), clear) => assert_eq!(clear, 8192),
        other => panic!("{:?}", other),
    }
    assert_eq!(heap.nu_calloc(usize::MAX, 2, false, meta), (MallocOutcome::Null, 0));
    assert_eq!(heap.nu_calloc(0, 8, false, meta), (MallocOutcome::Null, 0));
    assert_eq!(calloc_size(1024, 8), Some(8192));
    assert_eq!(calloc_size(usize::MAX, 2), None);
}

#[test]
fn realloc_keeps_a_block_that_is_large_enough() {
    let mut heap = allocator();
    let meta = heap.thread_meta(0).unwrap();
    let p = match heap.nu_malloc(256, false, meta) {
        MallocOutcome::Small(p) => p,
        other => panic!("{:?}", other),
    };
    let old_size = heap.nu_size_of(p, meta).unwrap();
    assert_eq!(old_size, 256);
    assert_eq!(heap.nu_realloc(p, old_size, 64), ReallocPlan::Keep);
    assert_eq!(heap.nu_realloc(p, old_size, 257), ReallocPlan::Move(256));
    assert_eq!(heap.nu_realloc(p, old_size, 0), ReallocPlan::Release);
    assert_eq!(heap.nu_realloc(0, 0, 64), ReallocPlan::Allocate(64));
    assert_eq!(realloc(0, 0, 0), ReallocPlan::Allocate(0));
}

#[test]
fn free_asks_the_small_heap_first() {
    let mut heap = allocator();
    let meta = heap.thread_meta(0).unwrap();
    let small = match heap.nu_malloc(24, false, meta) {
        MallocOutcome::Small(a) => a,
        other => panic!("{:?}", other),
    };
    let large = match heap.nu_malloc(100000, false, meta) {
        MallocOutcome::Bump(p) => p,
        other => panic!("{:?}", other),
    };
    assert_eq!(heap.nu_free(small, false, meta), FreeOutcome::Done);
    assert_eq!(heap.nu_malloc(24, false, meta), MallocOutcome::Small(small));
    assert_eq!(heap.nu_free(large.addr, false, meta), FreeOutcome::ReadBookmark);
    assert_eq!(heap.nu_free_bump(large.addr, large.bookmark, large.origin), FreeAction::Listed);
    // From inside the allocator every free is the bump heap's.
    assert_eq!(heap.nu_free(small, true, meta), FreeOutcome::ReadBookmark);
    // A bookmark with the lowest bit clear is none of the bump heap's.
    assert_eq!(heap.nu_free_bump(large.addr, large.bookmark - 1, large.origin), FreeAction::Ignored);
    assert_eq!(free_route(17), Route::Bump);
    assert_eq!(free_route(16), Route::Small);
    heap.thread_exit(meta);
}

#[test]
fn regions_are_handed_to_the_heap_that_asked() {
    let mut heap = allocator();
    assert_eq!(heap.region_of(RegionOwner::Internal), Some(INTERNAL));
    assert_eq!(heap.region_of(RegionOwner::Node(0)), Some(NODE_REGION));
    assert_eq!(heap.region_of(RegionOwner::Node(1)), None);
    assert!(!heap.provide_region(RegionOwner::Node(1), 0, INTERNAL + HEAP_VIRT_SIZE));
    assert!(!heap.provide_region(RegionOwner::Node(0), NODE_REGION, 0));
    assert!(!heap.provide_region(RegionOwner::Internal, NODE_REGION, INTERNAL + HEAP_VIRT_SIZE));
    assert!(heap.provide_region(RegionOwner::Internal, INTERNAL, INTERNAL + HEAP_VIRT_SIZE));
    assert_eq!(heap.region_of(RegionOwner::Internal), Some(INTERNAL + HEAP_VIRT_SIZE));
    assert!(heap.provide_region(RegionOwner::Node(0), NODE_REGION, NODE_REGION + HEAP_VIRT_SIZE));
    assert_eq!(bump_outcome(AllocOutcome::NeedRegion), MallocOutcome::NeedRegion(RegionOwner::Internal));
    assert_eq!(bump_outcome(AllocOutcome::TooLarge), MallocOutcome::Null);
}

#[test]
fn the_guard_tells_inner_calls_from_outer_ones() {
    let mut guard = InnerCall::new();
    assert!(!guard.get());
    let outer = guard.enter();
    assert!(outer);
    assert!(guard.get());
    // A call made while the first is under way comes from inside.
    let inner = guard.enter();
    assert!(!inner);
    guard.leave(inner);
    assert!(guard.get());
    guard.leave(outer);
    assert!(!guard.get());
}

#[test]
fn bookmarks_carry_size_and_origin() {
    assert_eq!(make_bookmark(128, true), 129);
    assert_eq!(make_bookmark(128, false), 128);
    assert_eq!(object_bookmark(129), (128, true));
    assert_eq!(object_bookmark(128), (128, false));
    assert_eq!(object_bookmark(0), (0, false));
    assert_eq!(bookmark_size(), 8);
    let meta = ObjectMeta { size: 4, tid: 9 };
    assert_eq!(meta.clone(), meta);
}

#[test]
fn large_objects_take_whole_pages() {
    let mut heap = BumpAllocator::new(INTERNAL, PAGE);
    match large_heap::allocate(&mut heap, 70000, PAGE) {
        AllocOutcome::Placed(p) => {
            // 70000 bytes are 18 pages: 73728 bytes, in a block of 131072.
            assert_eq!(p.bookmark, 131073);
            assert_eq!(large_heap::size_of(p.addr, 131072), 131072);
            assert_eq!(large_heap::free(&mut heap, p.addr, p.bookmark, p.origin), FreeAction::Listed);
        }
        other => panic!("{:?}", other),
    }
    assert_eq!(large_heap::allocate(&mut heap, HEAP_VIRT_SIZE, PAGE), AllocOutcome::TooLarge);
    assert_eq!(large_heap::allocate(&mut heap, HEAP_VIRT_SIZE - 1, PAGE), AllocOutcome::TooLarge);
}

#[test]
fn aligned_blocks_are_remembered_by_their_aligned_address() {
    let mut books = NullocAllocator::new();
    assert_eq!(NullocAllocator::request_size(100, 64), Some(163));
    assert_eq!(NullocAllocator::request_size(100, 0), None);
    assert_eq!(NullocAllocator::request_size(usize::MAX, 2), None);
    assert_eq!(books.place(0x1008, 64), Some(0x1040));
    assert_eq!(books.place(0x2000, 64), Some(0x2000));
    assert_eq!(books.place(1, 64), None);
    assert_eq!(books.reclaim(0x1040), Some(0x1008));
    assert_eq!(books.reclaim(0x1040), None);
    assert_eq!(books.reclaim(0x2000), Some(0x2000));
}

#[test]
fn a_used_up_internal_region_is_asked_for() {
    let mut heap = allocator();
    let meta = heap.thread_meta(0).unwrap();
    let big = HEAP_VIRT_SIZE / 2;
    match heap.nu_malloc(big, false, meta) {
        MallocOutcome::Bump(p) => assert_eq!(p.bookmark, big + 1),
        other => panic!("{:?}", other),
    }
    assert_eq!(heap.nu_malloc(big, false, meta), MallocOutcome::NeedRegion(RegionOwner::Internal));
    assert!(heap.provide_region(RegionOwner::Internal, INTERNAL, INTERNAL + HEAP_VIRT_SIZE));
    match heap.nu_malloc(big, true, meta) {
        MallocOutcome::Bump(p) => assert_eq!(p.origin, INTERNAL + HEAP_VIRT_SIZE + BOOKMARK_SIZE),
        other => panic!("{:?}", other),
    }
}

#[test]
fn an_allocator_is_made_only_of_regions_that_can_be_used() {
    assert!(Nulloc::try_new(&vec![0], &vec![NODE_REGION], INTERNAL, PAGE).is_some());
    // No node, a processor on a node that is not there, a page size that is
    // no power of two, overlapping regions, a region at an odd address.
    assert!(Nulloc::try_new(&vec![], &vec![], INTERNAL, PAGE).is_none());
    assert!(Nulloc::try_new(&vec![1], &vec![NODE_REGION], INTERNAL, PAGE).is_none());
    assert!(Nulloc::try_new(&vec![0], &vec![NODE_REGION], INTERNAL, 4095).is_none());
    assert!(Nulloc::try_new(&vec![0, 1], &vec![NODE_REGION, NODE_REGION + 4096], INTERNAL, PAGE)
        .is_none());
    assert!(Nulloc::try_new(&vec![0], &vec![NODE_REGION + 8], INTERNAL, PAGE).is_none());
    assert!(Nulloc::try_new(&vec![0], &vec![NODE_REGION], usize::MAX, PAGE).is_none());
    assert!(Nulloc::try_new(
        &vec![0, 1],
        &vec![NODE_REGION, NODE_REGION + HEAP_VIRT_SIZE],
        INTERNAL,
        PAGE
    )
    .is_some());
}
