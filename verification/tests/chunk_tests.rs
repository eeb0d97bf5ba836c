use nulloc::lfmap::{
    chunk_size_of, entry_size, grown, occupation_limit, read_value, Attachment, Chunk, ModOp,
    ModOutput, ModResult, ObjectAttachment, ParsedValue, Table, Value, WordAttachment,
    MAX_CAPACITY, PRIME_FLAG,
};

fn chunk(cap: usize) -> Chunk<(), WordAttachment> {
    Chunk::alloc_chunk(cap)
}

#[test]
fn raw_words_are_read_as_empty_sentinel_prime_or_value() {
    assert_eq!(read_value(0).parsed, ParsedValue::Empty);
    assert_eq!(read_value(1).parsed, ParsedValue::Sentinel);
    assert_eq!(read_value(2).parsed, ParsedValue::Val(2));
    assert_eq!(read_value(77).parsed.unwrap(), 77);
    assert_eq!(read_value(PRIME_FLAG - 1).parsed, ParsedValue::Val(PRIME_FLAG - 1));
    assert_eq!(read_value(PRIME_FLAG + 7).parsed, ParsedValue::Prime(7));
    assert_eq!(read_value(PRIME_FLAG + 7).raw, PRIME_FLAG + 7);
    let table: Table<(), WordAttachment> = Table::new();
    let value = Value::new(PRIME_FLAG + 9, &table);
    assert_eq!(value.raw, PRIME_FLAG + 9);
    assert_eq!(value.parsed, ParsedValue::Prime(9));
    assert_eq!(table.capacity(), 64);
}

#[test]
fn every_outcome_of_a_modification() {
    let mut c = chunk(2);
    // Keys 4 and 6 hash to 1 and 3: both start at slot 1 of two slots.
    let done = c.modify_entry(4, ModOp::Insert(40, ()));
    assert_eq!(done.result, ModResult::Done(1));
    assert_eq!(done.index, 1);
    let failed = c.modify_entry(4, ModOp::AttemptInsert(41, ()));
    assert_eq!(failed.result, ModResult::Fail(40));
    let second = c.modify_entry(6, ModOp::AttemptInsert(60, ()));
    assert_eq!(second.result, ModResult::Done(0));
    // No unused slot is left: the insert is turned down and key 4 keeps its value.
    let full = c.modify_entry(4, ModOp::Insert(42, ()));
    assert_eq!(full.result, ModResult::TableFull);
    assert_eq!(c.get_from_chunk(4).0.parsed, ParsedValue::Val(40));
    let missing = c.modify_entry(8, ModOp::Empty);
    assert_eq!(missing.result, ModResult::NotFound);
    let removed = c.modify_entry(4, ModOp::Empty);
    assert_eq!(removed.result, ModResult::Replaced(40));
    assert_eq!(removed.index, 1);
    assert_eq!(c.get_from_chunk(4).0.parsed, ParsedValue::Empty);
    assert_eq!(c.get_key(1), 4);
    assert_eq!(c.get_value(1).parsed, ParsedValue::Empty);
    let marked = c.modify_entry(6, ModOp::Sentinel);
    assert_eq!(marked.result, ModResult::Done(0));
    let seen = c.modify_entry(6, ModOp::Insert(61, ()));
    assert_eq!(seen.result, ModResult::Sentinel);
    assert_eq!(c.get_from_chunk(6).0.parsed, ParsedValue::Sentinel);
}

#[test]
fn a_missing_key_fails_at_the_first_unused_slot() {
    let mut c = chunk(8);
    let out = c.modify_entry(5, ModOp::Empty);
    assert_eq!(out.result, ModResult::Fail(0));
    let sentinel = c.modify_entry(5, ModOp::Sentinel);
    assert_eq!(sentinel.result, ModResult::Done(5));
    assert_eq!(c.get_from_chunk(5).1, 5);
}

#[test]
fn a_replaced_key_moves_to_the_next_unused_slot() {
    let mut c = chunk(8);
    assert_eq!(c.modify_entry(3, ModOp::Insert(30, ())).result, ModResult::Done(3));
    let replaced = c.modify_entry(3, ModOp::Insert(31, ()));
    assert_eq!(replaced.result, ModResult::Replaced(30));
    assert_eq!(replaced.index, 4);
    let found = c.get_from_chunk(3);
    assert_eq!(found.0.parsed, ParsedValue::Val(31));
    assert_eq!(found.1, 4);
    c.erase_attachment(3, 3);
    let out = ModOutput::new(ModResult::NotFound, 7);
    assert_eq!(out.index, 7);
}

#[test]
fn chunks_grow_by_four_then_by_two() {
    assert_eq!(grown(16), 64);
    assert_eq!(grown(1024), 4096);
    assert_eq!(grown(2048), 8192);
    assert_eq!(grown(4096), 8192);
    assert_eq!(grown(MAX_CAPACITY / 2), MAX_CAPACITY);
    assert_eq!(grown(MAX_CAPACITY), MAX_CAPACITY);
    assert_eq!(occupation_limit(16), 11);
    assert_eq!(occupation_limit(64), 44);
    assert_eq!(occupation_limit(1), 0);
    assert_eq!(entry_size(), 2);
    assert_eq!(chunk_size_of(64), 128);
}

#[test]
fn migration_keeps_every_key() {
    let mut table: Table<u8, ObjectAttachment<u8>> = Table::with_capacity(8);
    for k in 1..6usize {
        assert_eq!(table.insert(k * 16, 2 + k, k as u8), None);
    }
    table.migrate();
    assert_eq!(table.capacity(), 32);
    assert_eq!(table.occupation(), 5);
    for k in 1..6usize {
        assert_eq!(table.get(k * 16), Some((2 + k, k as u8)));
    }
    assert!(!table.check_resize());
    assert_eq!(table.remove(32), Some((4, 2)));
    assert_eq!(table.get(32), None);
}

#[test]
fn an_attachment_keeps_one_payload_per_slot() {
    let mut payloads = ObjectAttachment::<u32>::new(4);
    payloads.set(2, 99, 7);
    payloads.set(0, 98, 5);
    assert_eq!(payloads.get(2, 99), 7);
    assert_eq!(payloads.get(0, 98), 5);
    payloads.erase(2, 99);
    let mut none = WordAttachment::new(4);
    none.set(1, 1, ());
    assert_eq!(none.get(1, 1), ());
    none.erase(1, 1);
}

#[test]
fn erasing_a_payload_leaves_the_attachment_as_it_was() {
    let mut payloads = ObjectAttachment::<u32>::new(4);
    payloads.set(2, 99, 7);
    payloads.set(0, 98, 5);
    payloads.erase(2, 99);
    assert_eq!(payloads.get(2, 99), 7);
    assert_eq!(payloads.get(0, 98), 5);
    // A removed key's payload is gone from the table all the same.
    let mut table = Table::<u32, ObjectAttachment<u32>>::with_capacity(16);
    assert_eq!(table.insert(9, 3, 70), None);
    assert_eq!(table.remove(9), Some((3, 70)));
    assert_eq!(table.get(9), None);
    assert_eq!(table.insert(9, 4, 80), None);
    assert_eq!(table.get(9), Some((4, 80)));
}
