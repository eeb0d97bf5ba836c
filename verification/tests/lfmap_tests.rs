use nulloc::lfmap::{KeyedMap, ObjectMap, Table, WordAttachment, WordMap};

#[test]
fn will_not_overflow() {
    let mut table = WordMap::with_capacity(16);
    for i in 50..60 {
        assert_eq!(table.insert(i, i), None);
    }
    for i in 50..60 {
        assert_eq!(table.get(i), Some(i));
    }
}

#[test]
fn resize() {
    let mut map = WordMap::with_capacity(16);
    for i in 5..2048 {
        map.insert(i, i * 2);
    }
    for i in 5..2048 {
        match map.get(i) {
            Some(r) => assert_eq!(r, i * 2),
            None => panic!("{}", i),
        }
    }
}

#[test]
fn resize_then_remove_empties_the_map() {
    let mut map = WordMap::with_capacity(16);
    for i in 5..2048 {
        map.insert(i, i * 2);
    }
    assert_eq!(map.len(), 2043);
    for i in 5..2048 {
        assert_eq!(map.get(i), Some(i * 2));
    }
    for i in 5..2048 {
        assert_eq!(map.remove(i), Some(i * 2));
    }
    assert_eq!(map.len(), 0);
    for i in 5..2048 {
        assert_eq!(map.get(i), None);
    }
}

#[derive(Copy, Clone)]
struct Obj {
    a: usize,
    b: usize,
    c: usize,
    d: usize,
}

impl Obj {
    fn new(num: usize) -> Self {
        Obj { a: num, b: num + 1, c: num + 2, d: num + 3 }
    }

    fn validate(&self, num: usize) {
        assert_eq!(self.a, num);
        assert_eq!(self.b, num + 1);
        assert_eq!(self.c, num + 2);
        assert_eq!(self.d, num + 3);
    }
}

#[test]
fn obj_map() {
    let mut map = ObjectMap::with_capacity(16);
    for i in 5..2048 {
        map.insert(i, Obj::new(i));
    }
    for i in 5..2048 {
        match map.get(i) {
            Some(r) => r.validate(i),
            None => panic!("{}", i),
        }
    }
}

#[test]
fn bump_heap_application() {
    let mut map = WordMap::with_capacity(1024);
    for i in 5..10240 {
        map.insert(i, i * 2);
    }
    for i in 5..10240 {
        assert_eq!(map.get(i), Some(i * 2), "index: {}", i);
    }
    for i in 5..10240 {
        assert_eq!(map.remove(i), Some(i * 2), "index: {}", i);
    }
}

#[test]
fn mmap_heap_general() {
    let mut map = WordMap::with_capacity(1024);
    for i in 5..10240 {
        map.insert(i, i * 2);
    }
    for i in 5..10240 {
        assert_eq!(map.get(i), Some(i * 2), "index: {}", i);
    }
}

#[test]
fn small_heap_application() {
    let mut map = WordMap::with_capacity(64);
    for i in 5..10240 {
        map.insert(i, i * 2);
    }
    for i in 5..10240 {
        assert_eq!(map.get(i), Some(i * 2), "index: {}", i);
    }
    for i in 5..10240 {
        assert_eq!(map.remove(i), Some(i * 2), "index: {}", i);
    }
}

#[test]
fn insert_reports_the_value_it_displaces() {
    let mut table: Table<(), WordAttachment> = Table::with_capacity(4);
    assert_eq!(table.insert(48, 7, ()), None);
    assert_eq!(table.insert(48, 9, ()), Some(7));
    assert_eq!(table.get(48), Some((9, ())));
    assert_eq!(table.occupation(), 1);
    assert_eq!(table.remove(48), Some((9, ())));
    assert_eq!(table.remove(48), None);
    assert_eq!(table.get(48), None);
    assert_eq!(table.occupation(), 0);
}

#[test]
fn tombstones_fill_a_chunk_and_the_table_recovers() {
    // Every insert of a key uses a fresh slot, so replacing one key again and
    // again runs a chunk of four slots out of unused slots while its
    // occupancy stays at one.
    let mut table: Table<(), WordAttachment> = Table::with_capacity(4);
    for round in 0..100 {
        let prior = table.insert(16, 2 + round, ());
        if round == 0 {
            assert_eq!(prior, None);
        } else {
            assert_eq!(prior, Some(1 + round));
        }
        assert_eq!(table.occupation(), 1);
    }
    assert_eq!(table.get(16), Some((101, ())));
}

#[test]
fn growth_quadruples_small_chunks_and_doubles_large_ones() {
    let mut map = WordMap::with_capacity(16);
    assert_eq!(map.capacity(), 16);
    // Seven tenths of 16 is 11: the thirteenth insert finds 12 keys, above the limit.
    for i in 0..12 {
        map.insert(100 + i, 2);
    }
    assert_eq!(map.capacity(), 16);
    map.insert(200, 2);
    assert_eq!(map.capacity(), 64);
    let mut big = WordMap::with_capacity(2048);
    for i in 0..1434 {
        big.insert(1 + i, 2);
    }
    assert_eq!(big.capacity(), 2048);
    big.insert(5000, 2);
    assert_eq!(big.capacity(), 8192);
    let mut bigger = WordMap::with_capacity(4096);
    for i in 0..2868 {
        bigger.insert(1 + i, 2);
    }
    assert_eq!(bigger.capacity(), 4096);
    bigger.insert(5000, 2);
    assert_eq!(bigger.capacity(), 8192);
}

#[test]
fn the_unused_key_is_never_found() {
    let mut map = WordMap::with_capacity(8);
    map.insert(3, 30);
    assert_eq!(map.get(0), None);
    assert_eq!(map.remove(0), None);
    assert_eq!(map.get(3), Some(30));
}

// The writers of the following three tests take turns.

#[test]
fn parallel_no_resize() {
    let mut map = WordMap::with_capacity(65536);
    for i in 5..99 {
        map.insert(i, i * 10);
    }
    for i in 100..900 {
        for j in 5..60 {
            map.insert(i * 100 + j, i * j);
        }
    }
    for i in 5..9 {
        for j in 1..10 {
            map.remove(i * j);
        }
    }
    for i in 100..900 {
        for j in 5..60 {
            assert_eq!(map.get(i * 100 + j), Some(i * j))
        }
    }
    for i in 5..9 {
        for j in 1..10 {
            assert!(map.get(i * j).is_none())
        }
    }
}

#[test]
fn parallel_with_resize() {
    let mut map = WordMap::with_capacity(32);
    for i in 5..24 {
        for j in 5..1000 {
            map.insert(i + j * 100, i * j);
        }
    }
    for i in 5..24 {
        for j in 5..1000 {
            let k = i + j * 100;
            match map.get(k) {
                Some(v) => assert_eq!(v, i * j),
                None => {
                    panic!("Value should not be None for key: {}", k)
                }
            }
        }
    }
}

#[test]
fn parallel_hybird() {
    let mut map = WordMap::with_capacity(32);
    for i in 5..128 {
        map.insert(i, i * 10);
    }
    for i in 256..265 {
        for j in 5..60 {
            map.insert(i * 10 + j, 10);
        }
    }
    for i in 5..8 {
        for j in 5..8 {
            map.remove(i * j);
        }
    }
    for i in 256..265 {
        for j in 5..60 {
            assert_eq!(map.get(i * 10 + j), Some(10))
        }
    }
}

#[test]
fn a_capacity_has_to_be_a_power_of_two() {
    assert!(WordMap::try_with_capacity(16).is_some());
    assert!(WordMap::try_with_capacity(1).is_some());
    assert!(WordMap::try_with_capacity(0).is_none());
    assert!(WordMap::try_with_capacity(24).is_none());
    assert!(WordMap::try_with_capacity(1 << 31).is_none());
    assert!(ObjectMap::<u8>::try_with_capacity(64).is_some());
    assert!(ObjectMap::<u8>::try_with_capacity(65).is_none());
    let table: Option<Table<(), WordAttachment>> = Table::try_with_capacity(12);
    assert!(table.is_none());
    let mut map = WordMap::try_with_capacity(8).unwrap();
    assert_eq!(map.insert(3, 30), None);
    assert_eq!(map.get(3), Some(30));
}
