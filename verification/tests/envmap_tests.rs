use nulloc::collections::envmap::{EnvMap, Producer};

#[test]
fn writes_wait_with_their_producer_until_a_refresh() {
    let mut map: EnvMap<u32> = EnvMap::new();
    let mut first = map.new_producer().unwrap();
    let mut second = map.new_producer().unwrap();
    assert_eq!(first.id(), 0);
    assert_eq!(second.id(), 1);
    first.insert(10, 100);
    second.insert(20, 200);
    first.insert(30, 300);
    assert_eq!(map.get(10), None);
    let mut producers = vec![first, second];
    map.refresh(&mut producers);
    assert_eq!(map.get(10), Some(100));
    assert_eq!(map.get(20), Some(200));
    assert_eq!(map.get(30), Some(300));
    // The writes were moved: a second refresh finds none.
    producers[0].insert(10, 101);
    map.refresh(&mut producers);
    assert_eq!(map.get(10), Some(101));
}

#[test]
fn a_removed_producer_is_passed_over() {
    let mut map: EnvMap<u8> = EnvMap::new();
    let mut kept = map.new_producer().unwrap();
    let mut removed = map.new_producer().unwrap();
    kept.insert(1, 11);
    removed.insert(2, 22);
    map.remove_producer(&removed);
    let mut producers = vec![kept, removed];
    map.refresh(&mut producers);
    assert_eq!(map.get(1), Some(11));
    assert_eq!(map.get(2), None);
}

#[test]
fn a_later_producer_overwrites_an_earlier_one() {
    let mut map: EnvMap<u8> = EnvMap::new();
    let mut first: Producer<u8> = map.new_producer().unwrap();
    let mut second: Producer<u8> = map.new_producer().unwrap();
    first.insert(7, 1);
    second.insert(7, 2);
    let mut producers = vec![first, second];
    map.refresh(&mut producers);
    assert_eq!(map.get(7), Some(2));
}

#[test]
fn direct_writes_go_straight_to_the_map() {
    let mut map: EnvMap<u8> = EnvMap::new();
    assert_eq!(map.insert(5, 50), None);
    assert_eq!(map.insert(5, 51), Some(()));
    assert_eq!(map.get(5), Some(51));
    assert_eq!(map.remove(5), Some(51));
    assert_eq!(map.remove(5), None);
}

#[test]
fn the_last_write_of_a_producer_wins() {
    let mut map: EnvMap<u32> = EnvMap::new();
    let mut writer = map.new_producer().unwrap();
    writer.insert(9, 1);
    writer.insert(8, 5);
    writer.insert(9, 2);
    let mut producers = vec![writer];
    map.refresh(&mut producers);
    assert_eq!(map.get(9), Some(2));
    assert_eq!(map.get(8), Some(5));
}
