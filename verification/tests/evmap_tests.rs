use nulloc::collections::evmap::{EvBin, EvMap};

#[test]
fn a_refresh_reflects_every_waiting_write() {
    let mut map = EvMap::new(&vec![4, 4]);
    map.insert_to_cpu(0x1000, 0x8000, 0, 0);
    map.insert_to_cpu(0x1010, 0x8000, 0, 1);
    map.insert_to_cpu(0x2000, 0x9000, 1, 3);
    assert_eq!(map.load(), 3);
    // Readers that do not refresh see a stale snapshot.
    assert_eq!(map.get(0x1000), None);
    assert!(!map.contains(0x2000));
    assert_eq!(map.refresh(0), None);
    assert_eq!(map.get(0x1000), Some(0x8000));
    assert_eq!(map.get(0x1010), Some(0x8000));
    assert_eq!(map.get(0x2000), Some(0x9000));
    assert!(map.contains(0x2000));
    assert_eq!(map.load(), 3);
}

#[test]
fn a_refresh_with_lookup_stops_behind_the_shard_that_answers() {
    let mut map = EvMap::new(&vec![2, 2]);
    map.insert_to_cpu(0x10, 0x100, 0, 0);
    map.insert_to_cpu(0x20, 0x200, 0, 1);
    map.insert_to_cpu(0x30, 0x300, 1, 0);
    // The write to 0x20 waits in the second shard: the third is left alone.
    assert_eq!(map.refresh(0x20), Some(0x200));
    assert_eq!(map.get(0x10), Some(0x100));
    assert_eq!(map.get(0x20), Some(0x200));
    assert_eq!(map.get(0x30), None);
    // A key that no shard holds drains them all and finds nothing.
    assert_eq!(map.refresh(0x40), None);
    assert_eq!(map.get(0x30), Some(0x300));
}

#[test]
fn processors_share_shards_by_their_low_bits() {
    // Three processors get four shards: processor 5 writes where processor 1 does.
    let mut map = EvMap::new(&vec![3]);
    map.insert_to_cpu(0x10, 0x100, 0, 1);
    map.insert_to_cpu(0x10, 0x111, 0, 5);
    // A shard is applied from its oldest write to its newest: the last
    // write wins.
    assert_eq!(map.refresh(0x10), Some(0x111));
    assert_eq!(map.get(0x10), Some(0x111));
}

#[test]
fn the_last_write_of_a_writer_wins() {
    let mut map = EvMap::new(&vec![1]);
    map.insert_to_cpu(0x40, 1001, 0, 0);
    map.insert_to_cpu(0x48, 2001, 0, 0);
    map.insert_to_cpu(0x40, 1002, 0, 0);
    assert_eq!(map.refresh(0), None);
    assert_eq!(map.get(0x40), Some(1002));
    assert_eq!(map.get(0x48), Some(2001));
    // More writes than a buffer of the shard holds, each key written twice.
    for round in 0..2 {
        for key in 1..40usize {
            map.insert_to_cpu(key * 8, 100 * key + round, 0, 0);
        }
    }
    assert_eq!(map.refresh(0), None);
    for key in 1..40usize {
        assert_eq!(map.get(key * 8), Some(100 * key + 1));
    }
}

#[test]
fn direct_writes_go_to_the_authoritative_map() {
    let mut map = EvMap::new(&vec![1]);
    assert_eq!(map.insert(7, 70), None);
    assert_eq!(map.insert(7, 71), Some(()));
    assert_eq!(map.get(7), Some(71));
    assert_eq!(map.remove(7), Some(71));
    assert_eq!(map.remove(7), None);
    assert!(!map.contains(7));
}

#[test]
fn a_shard_takes_writes() {
    let mut bin = EvBin::new();
    bin.push(5, 50);
    bin.push(6, 60);
}
