use nulloc::collections::lflist::{
    BufferLayout, BufferMeta, ExchangeArray, ExchangeSlot, List, ObjectList, WordList,
    EXCHANGE_BUSY, EXCHANGE_EMPTY, EXCHANGE_WAITING,
};

const PAGE_SIZE: usize = 4096;

#[test]
fn lflist_general() {
    let mut list = WordList::new();
    let page_size = PAGE_SIZE;
    for i in 2..page_size {
        list.push(i);
    }
    for i in (2..page_size).rev() {
        assert_eq!(list.pop(), Some(i));
    }
    for _ in 2..page_size {
        assert_eq!(list.pop(), None);
    }
    list.push(32);
    list.push(25);
    let mut iter = list.iter();
    assert_eq!(iter.next().unwrap().0, 25);
    assert_eq!(iter.next().unwrap().0, 32);
    assert_eq!(list.count(), 2);
    let dropped = list.drop_out_all();
    assert_eq!(dropped, vec![(25, ()), (32, ())]);
    assert_eq!(list.count(), 0);
}

#[test]
fn parallel_insertion() {}

#[test]
fn push_then_pop_returns_every_item_once() {
    let mut list = ObjectList::<usize>::with_capacity(64);
    for i in 1..PAGE_SIZE {
        list.push(i);
    }
    assert_eq!(list.count(), PAGE_SIZE - 1);
    let mut agg = vec![];
    while let Some(v) = list.pop() {
        agg.push(v);
    }
    assert_eq!(list.count(), 0);
    assert_eq!(agg.len(), PAGE_SIZE - 1);
    agg.sort();
    agg.dedup();
    assert_eq!(agg.len(), PAGE_SIZE - 1);
    assert_eq!(agg[0], 1);
    assert_eq!(agg[PAGE_SIZE - 2], PAGE_SIZE - 1);
}

#[test]
fn a_short_list_drains_in_pop_order() {
    let mut list = List::<u8>::new(8);
    list.push(10, 1);
    list.push(11, 2);
    list.push(12, 3);
    // Three items are fewer than half a buffer: the drain pops.
    assert_eq!(list.drop_out_all(), vec![(12, 3), (11, 2), (10, 1)]);
    assert_eq!(list.count(), 0);
    assert_eq!(list.pop(), None);
}

#[test]
fn a_long_list_drains_buffer_by_buffer() {
    let mut list = List::<u8>::new(4);
    for i in 0..10u8 {
        list.push(100 + i as usize, i);
    }
    // Half a buffer is 2 items, the list holds 10: the chain is walked from
    // its newest buffer, each buffer from its lowest slot.
    let drained = list.drop_out_all();
    assert_eq!(
        drained,
        vec![
            (108, 8),
            (109, 9),
            (104, 4),
            (105, 5),
            (106, 6),
            (107, 7),
            (100, 0),
            (101, 1),
            (102, 2),
            (103, 3)
        ]
    );
    assert_eq!(list.count(), 0);
    list.push(7, 7);
    assert_eq!(list.pop(), Some((7, 7)));
}

#[test]
fn pop_crosses_buffers() {
    let mut list = WordList::with_capacity(2);
    for i in 2..9 {
        list.push(i);
    }
    for i in (2..9).rev() {
        assert_eq!(list.pop(), Some(i));
    }
    assert_eq!(list.pop(), None);
    list.exclusive_push(77);
    assert_eq!(list.count(), 1);
    assert_eq!(list.pop(), Some(77));
}

#[test]
fn prepend_with_moves_the_other_list_on_top() {
    let mut a = WordList::with_capacity(4);
    let mut b = WordList::with_capacity(4);
    a.push(2);
    a.push(3);
    b.push(4);
    b.push(5);
    a.prepend_with(&mut b);
    assert_eq!(a.count(), 4);
    assert_eq!(b.count(), 0);
    assert_eq!(b.pop(), None);
    assert_eq!(a.pop(), Some(5));
    assert_eq!(a.pop(), Some(4));
    assert_eq!(a.pop(), Some(3));
    assert_eq!(a.pop(), Some(2));
    assert_eq!(a.pop(), None);
}

#[test]
fn iterator_walks_from_newest_to_oldest() {
    let mut list = ObjectList::<u32>::with_capacity(2);
    for i in 0..5u32 {
        list.push(i);
    }
    let mut iter = list.iter();
    let mut seen = vec![];
    while let Some((_, v)) = iter.next() {
        seen.push(v);
    }
    assert_eq!(seen, vec![4, 3, 2, 1, 0]);
    assert_eq!(list.count(), 5);
}

#[test]
fn exchange_without_partner_returns_the_parameter() {
    let mut exchg = ExchangeSlot::<()>::new();
    assert_eq!(
        exchg.exchange(Some((0, ()))),
        Err(Some((0, ()))),
        "No paring exchange shall return the parameter"
    );
    assert_eq!(exchg.state(), EXCHANGE_EMPTY);
}

#[test]
fn exchange_pairs_a_parked_caller_with_the_next() {
    let mut cell = ExchangeSlot::<u8>::new();
    cell.park(Some((5, 50)));
    assert_eq!(cell.state(), EXCHANGE_WAITING);
    // The second caller takes what was parked and leaves its own.
    assert_eq!(cell.exchange(None), Ok(Some((5, 50))));
    assert_eq!(cell.state(), EXCHANGE_BUSY);
    // A third caller is turned away.
    assert_eq!(cell.exchange(Some((6, 60))), Err(Some((6, 60))));
    // The first caller comes back for what the second one left.
    assert_eq!(cell.resume(), Ok(None));
    assert_eq!(cell.state(), EXCHANGE_EMPTY);
}

#[test]
fn a_parked_caller_that_meets_nobody_gets_its_data_back() {
    let mut cell = ExchangeSlot::<u8>::new();
    cell.park(Some((9, 90)));
    assert_eq!(cell.resume(), Err(Some((9, 90))));
    assert_eq!(cell.state(), EXCHANGE_EMPTY);
}

#[test]
fn exchange_array_width_follows_the_processor_count() {
    let mut small = ExchangeArray::<()>::new(4);
    assert!(!small.worth_exchange(15));
    assert!(small.worth_exchange(16));
    assert_eq!(small.exchange(Some((3, ()))), Err(Some((3, ()))));
    let mut wide = ExchangeArray::<()>::with_capacity(32);
    assert!(!wide.worth_exchange(16));
    assert!(wide.worth_exchange(32));
    assert_eq!(wide.exchange(None), Err(None));
}

#[test]
fn slots_are_laid_out_behind_the_padded_descriptor() {
    // A word list has slots of a flag alone.
    let words = BufferLayout::new(0, 512).unwrap();
    assert_eq!(words.meta_size, 64);
    assert_eq!(words.tuple_size, 8);
    assert_eq!(words.tuple_size_aligned, 8);
    assert_eq!(words.total_size, 64 + 8 * 512);
    // A flag and a pair of words take 24 bytes, for which 32 are set aside.
    let pairs = BufferLayout::new(16, 8).unwrap();
    assert_eq!(pairs.tuple_size, 24);
    assert_eq!(pairs.tuple_size_aligned, 32);
    assert_eq!(pairs.total_size, 64 + 32 * 8);
    // Beyond 32 bytes a slot takes whole cache lines.
    let large = BufferLayout::new(60, 3).unwrap();
    assert_eq!(large.tuple_size, 68);
    assert_eq!(large.tuple_size_aligned, 128);
    assert_eq!(large.total_size, 64 + 128 * 3);
    assert_eq!(BufferLayout::new(usize::MAX, 1), None);
    assert_eq!(BufferLayout::new(8, usize::MAX), None);
    assert_eq!(pairs.flag_ptr_of(0x1040, 0), 0x1040);
    assert_eq!(pairs.flag_ptr_of(0x1040, 3), 0x1040 + 72);
    assert_eq!(pairs.object_ptr_of(0x1040), 0x1048);
    let buffer = BufferMeta::<u8>::new(4);
    assert_eq!(buffer.head(), 0);
}

// The pushers and poppers of this test take turns.
#[test]
fn parallel() {
    let page_size = PAGE_SIZE;
    let mut list = ObjectList::<usize>::with_capacity(64);
    for i in 2..page_size {
        list.push(i);
    }
    let mut counter = 0;
    while list.pop().is_some() {
        counter += 1;
    }
    assert_eq!(counter, page_size - 2);
    for i in 2..page_size {
        list.push(i);
    }
    let mut recev_list = WordList::with_capacity(64);
    for i in page_size..(page_size * 2) {
        if i % 2 == 0 {
            list.push(i);
        } else {
            let pop_val = list.pop().unwrap();
            recev_list.push(pop_val);
        }
    }
    let mut agg = vec![];
    while let Some(v) = list.pop() {
        agg.push(v);
    }
    while let Some(v) = recev_list.pop() {
        agg.push(v);
    }
    assert_eq!(recev_list.count(), 0, "receive counter not match");
    assert_eq!(list.count(), 0, "origin counter not match");
    let total_insertion = page_size + page_size / 2 - 2;
    assert_eq!(agg.len(), total_insertion, "unmatch before dedup");
    agg.sort();
    agg.dedup_by_key(|k| *k);
    assert_eq!(agg.len(), total_insertion, "unmatch after dedup");
}

// The two parties of this test take turns at one cell: the first leaves its
// value and waits, the second comes by, and the first ends its wait.
#[test]
fn exchange() {
    let mut exchg = ExchangeSlot::<()>::new();
    let attempt_cycles = 10000;
    let mut sum_board = std::collections::BTreeSet::new();
    let mut hit_count = 0;
    assert_eq!(
        exchg.exchange(Some((0, ()))),
        Err(Some((0, ()))),
        "No paring exchange shall return the parameter"
    );
    for i in 0..attempt_cycles {
        exchg.park(Some((i, ())));
        let res_2 = exchg.exchange(Some((i + attempt_cycles, ())));
        let res_1 = exchg.resume();
        for res in [res_1, res_2] {
            if res.is_ok() {
                hit_count += 1;
            }
            assert!(sum_board.insert(res.unwrap_or_else(|err| err)));
        }
    }
    assert!(hit_count > 0);
    assert_eq!(sum_board.len(), attempt_cycles * 2);
    for i in 0..attempt_cycles * 2 {
        assert!(
            sum_board.contains(&Some((i, ()))),
            "expecting {} but not found",
            i
        );
    }
}

#[test]
fn an_ordered_drain_hands_out_the_oldest_first() {
    let mut list = ObjectList::<usize>::with_capacity(4);
    for i in 0..11 {
        list.push(i * 3);
    }
    let drained: Vec<usize> = list.drain_in_order().iter().map(|slot| slot.1).collect();
    assert_eq!(drained, (0..11).map(|i| i * 3).collect::<Vec<usize>>());
    assert_eq!(list.count(), 0);
    assert_eq!(list.pop(), None);
    assert!(list.drain_in_order().is_empty());
}
