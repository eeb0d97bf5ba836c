use nulloc::bump_heap::{
    actual_size_of, maximum_free_list_covered_size, size_classes, size_of, AllocOutcome,
    AllocatorInstance, BumpAllocator, FreeAction, Placement, BOOKMARK_SIZE, HEAP_VIRT_SIZE,
};
use nulloc::generic_heap::ReallocPlan;
use std::collections::HashMap;

const REGION: usize = 0x7000_0000_0000;
const PAGE: usize = 4096;

fn placed(outcome: AllocOutcome) -> Placement {
    match outcome {
        AllocOutcome::Placed(p) => p,
        other => panic!("not placed: {:?}", other),
    }
}

fn memset(memory: &mut HashMap<usize, u8>, addr: usize, value: u8, size: usize) {
    for a in addr..addr + size {
        memory.insert(a, value);
    }
}

#[test]
fn generic() {
    let mut memory: HashMap<usize, u8> = HashMap::new();
    let mut a = AllocatorInstance::new(REGION, PAGE);
    let o1_size = 128;
    let first = placed(a.allocate(o1_size, 8));
    let addr_1 = first.addr;
    memset(&mut memory, addr_1, 255, o1_size);
    for add in addr_1..addr_1 + o1_size {
        assert_eq!(memory[&add], 255);
    }
    let o2_size = 256;
    let second = placed(a.allocate(o2_size, 8));
    let addr_2 = second.addr;
    memset(&mut memory, addr_2, 233, o2_size);
    for add in addr_1..addr_1 + o1_size {
        assert_eq!(memory[&add], 255);
    }
    for add in addr_2..addr_2 + o2_size {
        assert_eq!(memory[&add], 233);
    }
    assert_eq!(a.deallocate(addr_1, first.bookmark, first.origin, o1_size, 8), FreeAction::Listed);
    let third = placed(a.allocate(o1_size, 8));
    let addr_3 = third.addr;
    assert_eq!(addr_3, addr_1);
    for add in addr_3..addr_3 + o1_size {
        assert_eq!(memory[&add], 255);
    }
    memset(&mut memory, addr_3, 24, o1_size);
    for add in addr_3..addr_3 + o1_size {
        assert_eq!(memory[&add], 24);
    }
    for add in addr_2..addr_2 + o2_size {
        assert_eq!(memory[&add], 233);
    }
}

#[test]
fn blocks_are_powers_of_two_behind_a_bookmark() {
    let mut heap = AllocatorInstance::new(REGION, PAGE);
    // 100 bytes aligned to 16 need 115 bytes of room: a block of 128.
    let p = placed(heap.allocate(100, 16));
    assert_eq!(p.origin, REGION + BOOKMARK_SIZE);
    assert_eq!(p.addr, REGION + BOOKMARK_SIZE);
    assert_eq!(p.bookmark, 129);
    assert_eq!(p.bookmark & 1, 1);
    assert!(p.bookmark & !1 >= 100);
    // The next block starts behind the first: 16 + 128 bytes further on.
    let q = placed(heap.allocate(1, 1));
    assert_eq!(q.origin, REGION + 144 + BOOKMARK_SIZE);
    assert_eq!(q.bookmark, 3);
    assert_eq!(heap.size_of_object(16, 100), (128, 6));
    assert_eq!(heap.size_of_object(1, 1), (2, 0));
    assert_eq!(heap.size_of_object(1, 9), (16, 3));
    assert_eq!(actual_size_of(8, 128), 256);
    assert_eq!(actual_size_of(1, 128), 128);
}

#[test]
fn an_aligned_object_lies_inside_its_block() {
    let mut heap = AllocatorInstance::new(REGION + 8, PAGE);
    let p = placed(heap.allocate(40, 64));
    assert_eq!(p.origin, REGION + 8 + BOOKMARK_SIZE);
    assert_eq!(p.addr % 64, 0);
    assert_eq!(p.addr, REGION + 64);
    assert_eq!(p.bookmark, 129);
    assert!(p.addr + 40 <= p.origin + 128);
}

#[test]
fn a_used_up_region_asks_for_another() {
    let mut heap = AllocatorInstance::new(REGION, PAGE);
    let big = HEAP_VIRT_SIZE / 2;
    let first = placed(heap.allocate(big, 1));
    assert_eq!(first.bookmark, big + 1);
    assert_eq!(heap.allocate(big, 1), AllocOutcome::NeedRegion);
    assert_eq!(heap.bump_allocate(HEAP_VIRT_SIZE), None);
    // A region that someone else has swapped in already is turned down.
    assert!(!heap.swap_memory(REGION + 1, REGION + HEAP_VIRT_SIZE));
    assert_eq!(heap.base(), REGION);
    assert!(heap.swap_memory(REGION, REGION + HEAP_VIRT_SIZE));
    assert_eq!(heap.base(), REGION + HEAP_VIRT_SIZE);
    let second = placed(heap.allocate(big, 1));
    assert_eq!(second.origin, REGION + HEAP_VIRT_SIZE + BOOKMARK_SIZE);
    assert_eq!(heap.allocate(big + 1, 1), AllocOutcome::TooLarge);
    assert_eq!(heap.allocate(8, HEAP_VIRT_SIZE), AllocOutcome::TooLarge);
}

#[test]
fn bump_allocate_hands_out_the_old_cursor() {
    let mut heap = AllocatorInstance::new(REGION, PAGE);
    assert_eq!(heap.bump_allocate(100), Some(REGION));
    assert_eq!(heap.bump_allocate(28), Some(REGION + 100));
    assert_eq!(heap.bump_allocate(HEAP_VIRT_SIZE - 128), Some(REGION + 128));
    assert_eq!(heap.bump_allocate(1), None);
    assert_eq!(heap.bump_allocate(0), Some(REGION + HEAP_VIRT_SIZE));
}

#[test]
fn a_bookmark_that_does_not_fit_is_ignored() {
    let mut heap = AllocatorInstance::new(REGION, PAGE);
    let p = placed(heap.allocate(64, 1));
    // The wrong size.
    assert_eq!(heap.deallocate(p.addr, p.bookmark, p.origin, 32, 1), FreeAction::Ignored);
    // A bookmark that records another size.
    assert_eq!(heap.deallocate(p.addr, 33, p.origin, 64, 1), FreeAction::Ignored);
    assert_eq!(heap.deallocate(p.addr, 0, p.origin, 64, 1), FreeAction::Ignored);
    // A payload that starts behind the object.
    assert_eq!(heap.deallocate(p.addr, p.bookmark, p.addr + 8, 64, 1), FreeAction::Ignored);
    // A payload at the very start of the address space.
    assert_eq!(heap.deallocate(8, 65, 8, 64, 1), FreeAction::Ignored);
    assert_eq!(heap.deallocate(p.addr, p.bookmark, p.origin, 0, 1), FreeAction::Ignored);
    assert_eq!(heap.deallocate(p.addr, p.bookmark, p.origin, 64, 0), FreeAction::Ignored);
    // Nothing was listed: the next block comes off the region.
    let q = placed(heap.allocate(64, 1));
    assert_ne!(q.addr, p.addr);
    assert_eq!(heap.deallocate(p.addr, p.bookmark, p.origin, 64, 1), FreeAction::Listed);
    assert_eq!(placed(heap.allocate(64, 1)).addr, p.addr);
}

#[test]
fn a_block_beyond_the_free_lists_goes_back_to_the_system() {
    if maximum_free_list_covered_size() == usize::MAX {
        return;
    }
    let mut heap = AllocatorInstance::new(REGION, PAGE);
    let huge: usize = 1 << 40;
    assert_eq!(heap.size_of_object(1, huge), (huge, 39));
    let origin = REGION + BOOKMARK_SIZE;
    assert_eq!(
        heap.deallocate(origin, huge + 1, origin, huge, 1),
        FreeAction::ReturnPages(REGION, huge + BOOKMARK_SIZE)
    );
}

#[test]
fn the_bump_allocator_frees_by_the_bookmark() {
    let mut heap = BumpAllocator::new(REGION, PAGE);
    let p = placed(heap.malloc(300));
    assert_eq!(p.addr, p.origin);
    assert_eq!(p.bookmark, 513);
    assert_eq!(size_of(p.addr, 512), 512);
    assert_eq!(heap.realloc(p.addr, p.bookmark, 400), ReallocPlan::Keep);
    assert_eq!(heap.realloc(p.addr, p.bookmark, 513), ReallocPlan::Move(512));
    assert_eq!(heap.realloc(p.addr, p.bookmark, 0), ReallocPlan::Release);
    assert_eq!(heap.realloc(0, 0, 24), ReallocPlan::Allocate(24));
    assert_eq!(heap.free(p.addr, p.bookmark, p.origin), FreeAction::Listed);
    assert_eq!(placed(heap.malloc(512)).addr, p.addr);
    assert_eq!(heap.free(p.addr, 512, p.origin), FreeAction::Ignored);
    assert_eq!(heap.malloc(HEAP_VIRT_SIZE), AllocOutcome::TooLarge);
    assert_eq!(heap.base(), REGION);
    assert!(heap.swap_memory(REGION, REGION + HEAP_VIRT_SIZE));
}

#[test]
fn the_size_classes_double() {
    let classes = size_classes();
    assert_eq!(classes.len(), 32);
    assert_eq!(maximum_free_list_covered_size(), 1usize << 32);
}
