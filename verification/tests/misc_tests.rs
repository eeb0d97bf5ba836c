use nulloc::bibop_heap::{addr_numa_id, node_shift_bits, per_node_heap, total_heap, Heap, ReservedPage};
use nulloc::collections::fixvec::{total_size, FixedVec};
use nulloc::utils::{
    align_padding, hash_address, is_power_of_2, log_2_of, min_power_of_2, size_class_index_from_size,
    upper_power_of_2, AddressHasher,
};

#[test]
fn padding_reaches_the_next_multiple() {
    assert_eq!(align_padding(0, 8), 0);
    assert_eq!(align_padding(1, 8), 7);
    assert_eq!(align_padding(8, 8), 0);
    assert_eq!(align_padding(4097, 4096), 4095);
    assert_eq!(align_padding(usize::MAX, 8), 1);
    assert_eq!(align_padding(10, 1), 0);
}

#[test]
fn powers_of_two() {
    assert!(is_power_of_2(1));
    assert!(is_power_of_2(2));
    assert!(is_power_of_2(4096));
    assert!(!is_power_of_2(3));
    assert!(!is_power_of_2(4095));
    assert!(!is_power_of_2(0));
    assert_eq!(upper_power_of_2(1), 1);
    assert_eq!(upper_power_of_2(2), 2);
    assert_eq!(upper_power_of_2(3), 4);
    assert_eq!(upper_power_of_2(129), 256);
    assert_eq!(upper_power_of_2((1 << 40) + 1), 1 << 41);
    assert_eq!(min_power_of_2(0), 1);
    assert_eq!(min_power_of_2(5), 8);
    assert_eq!(min_power_of_2(8), 8);
    assert_eq!(log_2_of(1), 0);
    assert_eq!(log_2_of(2), 1);
    assert_eq!(log_2_of(1023), 9);
    assert_eq!(log_2_of(1024), 10);
    assert_eq!(log_2_of(usize::MAX), usize::BITS as usize - 1);
}

#[test]
fn size_classes_are_found_by_size() {
    assert_eq!(size_class_index_from_size(0), 0);
    assert_eq!(size_class_index_from_size(1), 0);
    assert_eq!(size_class_index_from_size(2), 0);
    assert_eq!(size_class_index_from_size(3), 1);
    assert_eq!(size_class_index_from_size(4), 1);
    assert_eq!(size_class_index_from_size(9), 3);
    assert_eq!(size_class_index_from_size(10), 3);
    assert_eq!(size_class_index_from_size(16), 3);
    assert_eq!(size_class_index_from_size(17), 4);
    assert_eq!(size_class_index_from_size(65536), 15);
}

#[test]
fn addresses_lose_their_low_zero_bits_when_hashed() {
    assert_eq!(hash_address(0), 0);
    assert_eq!(hash_address(1), 1);
    assert_eq!(hash_address(6), 3);
    assert_eq!(hash_address(16), 1);
    assert_eq!(hash_address(48), 3);
    // No more than four bits are dropped.
    assert_eq!(hash_address(64), 4);
    assert_eq!(hash_address(0x1000), 0x100);
    let mut hasher = AddressHasher::default();
    assert_eq!(hasher.finish(), 0);
    hasher.write_usize(0x1000);
    assert_eq!(hasher.finish(), 0x100);
}

#[test]
fn a_fixed_vector_keeps_its_places() {
    let mut v = FixedVec::new(4, 7u32);
    assert_eq!(v.capacity(), 4);
    assert_eq!(v.get(3), 7);
    v.set(2, 9);
    assert_eq!(v.get(2), 9);
    assert_eq!(v.get(1), 7);
    assert_eq!(v.capacity(), 4);
    assert_eq!(total_size(24, 4), 96);
}

#[test]
fn a_reserved_page_is_cut_object_by_object() {
    let page = 4096;
    let mut reserved = ReservedPage::new();
    let mut bumper = 0x10000;
    assert_eq!(reserved.take(64, page), None);
    assert_eq!(reserved.allocate_for(64, &mut bumper, page), 0x10000);
    assert_eq!(bumper, 0x11000);
    assert_eq!(reserved.take(64, page), Some(0x10040));
    assert_eq!(reserved.take(64, page), Some(0x10080));
    assert_eq!(reserved.take(4096, page), None);
    // An object of a page or more comes off the node's cursor alone.
    assert_eq!(reserved.allocate_for(8192, &mut bumper, page), 0x11000);
    assert_eq!(bumper, 0x13000);
    assert_eq!(reserved.take(64, page), Some(0x100c0));
    for _ in 0..60 {
        assert!(reserved.take(64, page).is_some());
    }
    assert_eq!(reserved.take(64, page), None);
}

#[test]
fn the_range_is_cut_into_parts_by_node() {
    assert_eq!(per_node_heap(1000), 1024);
    assert_eq!(total_heap(1024, 3), 4096);
    assert_eq!(node_shift_bits(4096, 4), 10);
    assert_eq!(addr_numa_id(0x5000 + 1024, 0x5000, 10), 1);
    assert_eq!(addr_numa_id(0x5000 + 3071, 0x5000, 10), 2);
    assert_eq!(Heap::new(0x5000).addr(), 0x5000);
}
