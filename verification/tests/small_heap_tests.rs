use nulloc::small_heap::{
    count_cpus, debug_check_cache_aligned, maximum_size, size_classes, AllocResult, Grant, SmallHeap,
    SuperBlock, ThreadMeta, HANDLE_BASE, SUPERBLOCK_CHUNK, SUPERBLOCK_HEADER, SUPERBLOCK_SIZE,
};
use nulloc::bump_heap::HEAP_VIRT_SIZE;
use std::collections::HashMap;

const REGION_0: usize = 0x7000_0000_0000;
const REGION_1: usize = 0x7100_0000_0000;
const PAGE: usize = 4096;

fn one_node() -> SmallHeap {
    SmallHeap::new(&vec![0, 0], &vec![REGION_0], PAGE)
}

fn two_nodes() -> SmallHeap {
    SmallHeap::new(&vec![0, 1], &vec![REGION_0, REGION_1], PAGE)
}

fn allocated(result: AllocResult) -> usize {
    match result {
        AllocResult::Allocated(addr) => addr,
        other => panic!("not allocated: {:?}", other),
    }
}

#[test]
fn small_heap_general() {
    let mut memory: HashMap<usize, u64> = HashMap::new();
    let mut heap = one_node();
    let meta = heap.thread_meta(0).unwrap();
    let ptr = allocated(heap.allocate(9, meta));
    for i in 0..1000 {
        memory.insert(ptr, i);
        assert_eq!(memory[&ptr], i);
    }
    heap.free(ptr, meta);
    let ptr2 = allocated(heap.allocate(10, meta));
    for i in 0..1000 {
        memory.insert(ptr2, i + 2);
        assert_eq!(memory[&ptr2], i + 2);
    }
    assert_eq!(ptr, ptr2);
}

#[test]
fn objects_lie_at_multiples_of_their_class_size() {
    let mut heap = one_node();
    let meta = heap.thread_meta(1).unwrap();
    // Nine bytes belong to the class of 16.
    let first = allocated(heap.allocate(9, meta));
    assert_eq!(first, REGION_0 + SUPERBLOCK_HEADER);
    let second = allocated(heap.allocate(16, meta));
    assert_eq!(second, first + 16);
    assert_eq!(heap.block_count(), 1);
    // Seventeen bytes belong to the next class, which gets its own superblock.
    let third = allocated(heap.allocate(17, meta));
    assert_eq!(third, REGION_0 + SUPERBLOCK_CHUNK + SUPERBLOCK_HEADER);
    assert_eq!(heap.block_count(), 2);
    assert_eq!(heap.size_of(first, meta), Some(16));
    assert_eq!(heap.size_of(third, meta), Some(32));
    assert_eq!(heap.size_of(first + 1, meta), None);
    assert_eq!(maximum_size(), 65536);
    assert_eq!(allocated(heap.allocate(65536, meta)) % 128, 0);
}

#[test]
fn successive_allocations_are_distinct() {
    let mut heap = one_node();
    let meta = heap.thread_meta(0).unwrap();
    let mut seen = std::collections::BTreeSet::new();
    for _ in 0..1000 {
        assert!(seen.insert(allocated(heap.allocate(64, meta))));
    }
}

#[test]
fn a_full_superblock_is_followed_by_a_new_one() {
    let mut heap = one_node();
    let meta = heap.thread_meta(0).unwrap();
    // Four objects of the largest class fill a superblock.
    let mut addrs = vec![];
    for _ in 0..4 {
        addrs.push(allocated(heap.allocate(65536, meta)));
    }
    assert_eq!(heap.block_count(), 1);
    assert_eq!(addrs[3], REGION_0 + SUPERBLOCK_HEADER + 3 * 65536);
    let fifth = allocated(heap.allocate(65536, meta));
    assert_eq!(heap.block_count(), 2);
    assert_eq!(fifth, REGION_0 + SUPERBLOCK_CHUNK + SUPERBLOCK_HEADER);
    // An object freed in the older superblock waits while the newer one has
    // room at its cursor, and is handed out when that one is full as well.
    assert!(heap.free(addrs[1], meta));
    for i in 1..4 {
        assert_eq!(allocated(heap.allocate(65536, meta)), fifth + i * 65536);
    }
    assert_eq!(allocated(heap.allocate(65536, meta)), addrs[1]);
    assert_eq!(heap.block_count(), 2);
}

#[test]
fn a_region_that_is_used_up_is_asked_for() {
    let mut heap = one_node();
    let meta = heap.thread_meta(0).unwrap();
    let per_region = HEAP_VIRT_SIZE / SUPERBLOCK_CHUNK;
    for _ in 0..per_region * 4 {
        allocated(heap.allocate(65536, meta));
    }
    assert_eq!(heap.block_count(), per_region);
    assert_eq!(heap.allocate(65536, meta), AllocResult::NeedRegion(0));
    assert_eq!(heap.region_of(0), REGION_0);
    assert!(!heap.provide_region(0, REGION_1, REGION_1));
    assert!(heap.provide_region(0, REGION_0, REGION_1));
    assert_eq!(heap.region_of(0), REGION_1);
    assert_eq!(allocated(heap.allocate(65536, meta)), REGION_1 + SUPERBLOCK_HEADER);
}

#[test]
fn a_free_from_another_node_waits_for_the_owner() {
    let mut heap = two_nodes();
    let on_0 = heap.thread_meta(0).unwrap();
    let on_1 = heap.thread_meta(1).unwrap();
    assert_eq!(on_0, ThreadMeta { numa: 0, cpu: 0 });
    assert_eq!(on_1, ThreadMeta { numa: 1, cpu: 1 });
    let a = allocated(heap.allocate(100, on_0));
    let b = allocated(heap.allocate(100, on_0));
    assert_eq!(b, a + 128);
    // The thread on node 1 frees: the address waits in the queue of node 0.
    assert!(heap.free(a, on_1));
    // The next operation on node 0 applies the free: the address is the next
    // that its superblock hands out.
    assert_eq!(allocated(heap.allocate(100, on_0)), a);
    assert_eq!(allocated(heap.allocate(100, on_0)), b + 128);
}

#[test]
fn an_unknown_address_is_not_freed() {
    let mut heap = one_node();
    let meta = heap.thread_meta(0).unwrap();
    assert!(!heap.free(0x1234, meta));
    let a = allocated(heap.allocate(8, meta));
    assert!(!heap.free(a + 1, meta));
    assert!(heap.free(a, meta));
    assert_eq!(heap.thread_meta(2), None);
    assert_eq!(heap.node_count(), 1);
}

#[test]
fn a_thread_that_ends_shares_its_superblocks() {
    let mut heap = one_node();
    let first = heap.thread_meta(0).unwrap();
    let second = heap.thread_meta(1).unwrap();
    let a = allocated(heap.allocate(32, first));
    heap.thread_exit(first);
    // Processor 1 adopts the superblock of processor 0 from the node's pool.
    let b = allocated(heap.allocate(32, second));
    assert_eq!(b, a + 32);
    assert_eq!(heap.block_count(), 1);
    // Processor 0 has none left and gets a new one.
    let c = allocated(heap.allocate(32, first));
    assert_eq!(c, REGION_0 + SUPERBLOCK_CHUNK + SUPERBLOCK_HEADER);
}

#[test]
fn a_superblock_hands_out_freed_addresses_first() {
    let mut block = SuperBlock::new(0x1000, 3, 16, 0, 0);
    let base = 0x1000 + SUPERBLOCK_HEADER;
    assert_eq!(block.allocate(), Some(Grant::Fresh(base)));
    assert_eq!(block.allocate(), Some(Grant::Fresh(base + 16)));
    assert_eq!(block.allocate(), Some(Grant::Fresh(base + 32)));
    assert!(block.contains(base + 16));
    assert!(!block.contains(base + 48));
    assert!(!block.contains(base + 17));
    assert!(block.dealloc(base + 16));
    assert!(block.dealloc(base));
    // Not an object of the block, or not handed out yet.
    assert!(!block.dealloc(base + 8));
    assert!(!block.dealloc(base + 48));
    assert!(!block.dealloc(base - 16));
    assert_eq!(block.allocate(), Some(Grant::Reused(base)));
    assert_eq!(block.allocate(), Some(Grant::Reused(base + 16)));
    assert_eq!(block.allocate(), Some(Grant::Fresh(base + 48)));
    assert_eq!(block.size(), 16);
    assert_eq!(block.numa(), 0);
}

#[test]
fn a_superblock_ends_at_its_data_region() {
    let mut block = SuperBlock::new(0x1000, 15, 65536, 0, 0);
    let base = 0x1000 + SUPERBLOCK_HEADER;
    for i in 0..4 {
        assert_eq!(block.allocate(), Some(Grant::Fresh(base + i * 65536)));
    }
    assert_eq!(block.allocate(), None);
    assert_eq!(SUPERBLOCK_SIZE, 4 * 65536);
    assert_eq!(HANDLE_BASE, 2);
}

#[test]
fn the_small_classes_go_from_2_to_65536() {
    let classes = size_classes(3, 1);
    assert_eq!(classes.len(), 16);
}

#[test]
fn a_region_has_to_be_free_to_be_taken() {
    let mut heap = two_nodes();
    let meta = heap.thread_meta(0).unwrap();
    let a = allocated(heap.allocate(64, meta));
    assert_eq!(a, REGION_0 + SUPERBLOCK_HEADER);
    // The region of the other node, and a region in which a superblock lies.
    assert!(!heap.is_region_free(0, REGION_1));
    assert!(heap.is_region_free(1, REGION_1));
    assert!(!heap.is_region_free(1, REGION_0));
    assert!(!heap.is_region_free(0, REGION_0));
    assert!(!heap.provide_region(0, REGION_0, REGION_1 + 4096));
    assert_eq!(heap.region_of(0), REGION_0);
    assert!(heap.is_region_free(0, REGION_1 + HEAP_VIRT_SIZE));
    assert!(heap.provide_region(0, REGION_0, REGION_1 + HEAP_VIRT_SIZE));
    assert_eq!(heap.region_of(0), REGION_1 + HEAP_VIRT_SIZE);
}

#[test]
fn the_owner_of_an_object_is_found_by_its_address() {
    let mut heap = two_nodes();
    let on_0 = heap.thread_meta(0).unwrap();
    let on_1 = heap.thread_meta(1).unwrap();
    let a = allocated(heap.allocate(48, on_0));
    let b = allocated(heap.allocate(48, on_1));
    // The first superblock has handle 2, the second 3, whoever asks.
    assert_eq!(heap.get_from_objects(0, a), Some(HANDLE_BASE));
    assert_eq!(heap.get_from_objects(1, a), Some(HANDLE_BASE));
    assert_eq!(heap.get_from_objects(0, b), Some(HANDLE_BASE + 1));
    assert_eq!(heap.get_from_objects(1, a + 64), None);
    assert_eq!(heap.get_from_objects(0, a + 1), None);
    // A release by handle: to the free list at home, to the queue elsewhere.
    heap.release(HANDLE_BASE, a, on_0);
    assert_eq!(allocated(heap.allocate(48, on_0)), a);
    heap.release(HANDLE_BASE + 1, b, on_0);
    heap.drain_pending(1);
    assert_eq!(allocated(heap.allocate(48, on_1)), b);
    // A handle that names no superblock, and an address that is none of the
    // superblock's, change nothing.
    heap.release(HANDLE_BASE + 9, a, on_0);
    heap.release(HANDLE_BASE, a + 1, on_0);
    assert_eq!(allocated(heap.allocate(48, on_0)), a + 64);
}

#[test]
fn every_class_serves_objects_of_its_power_of_two() {
    let mut heap = one_node();
    let meta = heap.thread_meta(0).unwrap();
    for tier in 0..16u32 {
        let class_size = 1usize << (tier + 1);
        // The largest and the smallest request of the class.
        let top = allocated(heap.allocate(class_size, meta));
        let bottom = allocated(heap.allocate(class_size / 2 + 1, meta));
        assert_eq!(heap.size_of(top, meta), Some(class_size));
        assert_eq!(heap.size_of(bottom, meta), Some(class_size));
        assert_eq!(bottom, top + class_size);
        let data_base = REGION_0 + tier as usize * SUPERBLOCK_CHUNK + SUPERBLOCK_HEADER;
        assert_eq!((top - data_base) % class_size, 0);
        assert!(top >= data_base && top < data_base + SUPERBLOCK_SIZE);
        for align in [8, 16, 32, 64] {
            assert!(debug_check_cache_aligned(top, class_size, align));
            assert!(debug_check_cache_aligned(bottom, class_size, align));
        }
    }
    assert!(debug_check_cache_aligned(0x1004, 2, 8));
    assert!(!debug_check_cache_aligned(0x1004, 8, 8));
}

#[test]
fn a_heap_is_made_only_of_regions_that_can_be_used() {
    assert!(SmallHeap::check_arguments(&vec![0, 0], &vec![REGION_0], PAGE));
    assert!(SmallHeap::try_new(&vec![0, 1], &vec![REGION_0, REGION_1], PAGE).is_some());
    // Two regions that overlap, a processor on a node that is not there, a
    // page size that is no power of two, and no node at all.
    assert!(!SmallHeap::check_arguments(
        &vec![0, 1],
        &vec![REGION_0, REGION_0 + HEAP_VIRT_SIZE - 64],
        PAGE
    ));
    assert!(SmallHeap::try_new(&vec![0, 2], &vec![REGION_0, REGION_1], PAGE).is_none());
    assert!(SmallHeap::try_new(&vec![0], &vec![REGION_0], 1000).is_none());
    assert!(SmallHeap::try_new(&vec![], &vec![], PAGE).is_none());
    // Regions that touch do not overlap.
    assert!(SmallHeap::check_arguments(
        &vec![0, 1],
        &vec![REGION_0, REGION_0 + HEAP_VIRT_SIZE],
        PAGE
    ));
}

#[test]
fn an_adopted_superblock_is_preferred_to_older_ones() {
    let mut heap = one_node();
    let first = heap.thread_meta(0).unwrap();
    let second = heap.thread_meta(1).unwrap();
    // Processor 1 has a superblock of its own, then adopts that of
    // processor 0, which has room at its cursor and so serves next.
    let own = allocated(heap.allocate(32, second));
    let shared = allocated(heap.allocate(32, first));
    assert_eq!(own, REGION_0 + SUPERBLOCK_HEADER);
    assert_eq!(shared, REGION_0 + SUPERBLOCK_CHUNK + SUPERBLOCK_HEADER);
    heap.thread_exit(first);
    // The own superblock is the only one that processor 1 prefers yet.
    assert_eq!(allocated(heap.allocate(32, second)), own + 32);
    assert_eq!(heap.block_count(), 2);
}

#[test]
fn processors_are_counted_node_by_node() {
    let cpu_nodes = vec![0, 1, 0, 2, 0, 1];
    assert_eq!(count_cpus(&cpu_nodes, 0), 3);
    assert_eq!(count_cpus(&cpu_nodes, 1), 2);
    assert_eq!(count_cpus(&cpu_nodes, 2), 1);
    assert_eq!(count_cpus(&cpu_nodes, 3), 0);
    assert_eq!(count_cpus(&vec![], 0), 0);
}
