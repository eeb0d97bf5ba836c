//! Open-addressed word-to-word hash table with linear probing, tombstones and
//! growth by migration into a larger chunk, plus an optional attachment that
//! keeps one payload per slot.
//!
//! A slot is a pair of words, key and raw value.  Key 0 marks a slot that was
//! never used.  Raw value 0 is *empty* (a tombstone where the key is set), 1 is
//! the *sentinel* left behind by a migration, and the highest bit is the
//! *prime* flag carried by a value while it is being copied.

use crate::utils::{address_hash, hash_address, is_pow2};
use core::marker::PhantomData;
use vstd::pervasive::unreached;
use vstd::prelude::*;

verus! {

/// A slot: key and raw value.
pub type EntryTemplate = (usize, usize);

/// The key of a slot that was never used.
pub const EMPTY_KEY: usize = 0;

/// The raw value of a slot that holds none.
pub const EMPTY_VALUE: usize = 0;

/// The raw value that a migration leaves behind.
pub const SENTINEL_VALUE: usize = 1;

/// The highest bit of a word, set on a value while it migrates.
pub const PRIME_FLAG: usize = usize::MAX / 2 + 1;

/// A chunk never grows beyond this many slots.
pub const MAX_CAPACITY: usize = 0x4000_0000;

/// Capacity of a table made by `new`.
pub const DEFAULT_CAPACITY: usize = 64;

/// Chunks of up to this capacity quadruple when they grow, larger ones double.
pub const FAST_GROWTH_LIMIT: usize = 2048;

/// What a raw value word stands for.
#[derive(Clone, Copy, Debug, PartialEq, Eq, Structural)]
pub enum ParsedValue {
    Val(usize),
    Prime(usize),
    Sentinel,
    Empty,
}

/// A raw value word together with its reading.
#[derive(Clone, Copy, Debug)]
pub struct Value {
    pub raw: usize,
    pub parsed: ParsedValue,
}

/// Outcome of one modification of a chunk.
#[derive(Clone, Copy, Debug, PartialEq, Eq, Structural)]
pub enum ModResult {
    /// A live value was taken out; it is given.
    Replaced(usize),
    /// Nothing was changed; a live value that stood in the way is given, or 0.
    Fail(usize),
    /// The key's slot was migrated away.
    Sentinel,
    NotFound,
    /// The operation wrote the given slot.
    Done(usize),
    /// No unused slot was left for the value.
    TableFull,
}

/// What a modification of a chunk came to, and the slot at which it ended.
pub struct ModOutput {
    pub result: ModResult,
    pub index: usize,
}

/// A modification of a chunk.
#[derive(Debug)]
pub enum ModOp<T> {
    /// Store the raw value and payload, displacing a live value of the key.
    Insert(usize, T),
    /// Store the raw value and payload unless the key has a live value.
    AttemptInsert(usize, T),
    /// Mark the key as migrated away.
    Sentinel,
    /// Take the key's live value out.
    Empty,
}

/// The reading of a raw value word.
pub open spec fn parse_value(raw: usize) -> ParsedValue {
    if raw == EMPTY_VALUE {
        ParsedValue::Empty
    } else if raw >= PRIME_FLAG {
        ParsedValue::Prime((raw - PRIME_FLAG) as usize)
    } else if raw == SENTINEL_VALUE {
        ParsedValue::Sentinel
    } else {
        ParsedValue::Val(raw)
    }
}

/// The raw word holds a value, plain or primed.
pub open spec fn is_live(raw: usize) -> bool {
    raw != EMPTY_VALUE && raw != SENTINEL_VALUE
}

/// The raw word without its prime flag.
pub open spec fn strip(raw: usize) -> usize {
    if raw >= PRIME_FLAG {
        (raw - PRIME_FLAG) as usize
    } else {
        raw
    }
}

/// A value that callers may store: neither of the two reserved words, and
/// without the prime flag.
pub open spec fn storable(value: usize) -> bool {
    2 <= value < PRIME_FLAG
}

/// A raw word that may stand in a slot.
pub open spec fn raw_ok(raw: usize) -> bool {
    raw >= PRIME_FLAG ==> raw - PRIME_FLAG >= 2
}

/// The slot visited at step `t` of a probe that starts at slot `h`.
pub open spec fn probe(h: int, t: int, cap: int) -> int {
    if h + t < cap {
        h + t
    } else {
        h + t - cap
    }
}

/// The step at which a probe that starts at slot `h` visits slot `i`.
pub open spec fn dist(h: int, i: int, cap: int) -> int {
    if i >= h {
        i - h
    } else {
        i - h + cap
    }
}

/// The slot at which the probe for `key` starts.
pub open spec fn home(key: usize, cap: int) -> int {
    (address_hash(key) as int) % cap
}

/// The first `d` slots of the probe from `h` have all been used.
pub open spec fn path_filled(s: Seq<EntryTemplate>, h: int, d: int) -> bool {
    forall|t: int| 0 <= t < d ==> s[#[trigger] probe(h, t, s.len() as int)].0 != EMPTY_KEY
}

/// The slots form a consistent probing table: unused slots are empty, every
/// used slot is reachable from its key's home slot without crossing an unused
/// one, and no key has a value in two slots.
pub open spec fn entries_inv(s: Seq<EntryTemplate>) -> bool {
    &&& forall|i: int| 0 <= i < s.len() && (#[trigger] s[i]).0 == EMPTY_KEY ==> s[i].1 == EMPTY_VALUE
    &&& forall|i: int| 0 <= i < s.len() ==> raw_ok((#[trigger] s[i]).1)
    &&& forall|i: int|
        0 <= i < s.len() && (#[trigger] s[i]).0 != EMPTY_KEY ==> path_filled(
            s,
            home(s[i].0, s.len() as int),
            dist(home(s[i].0, s.len() as int), i, s.len() as int),
        )
    &&& forall|i: int, j: int|
        0 <= i < s.len() && 0 <= j < s.len() && i != j && (#[trigger] s[i]).0 == (#[trigger] s[j]).0
            && s[i].0 != EMPTY_KEY ==> s[i].1 == EMPTY_VALUE || s[j].1 == EMPTY_VALUE
}

/// Slot `i` carries `key` with a value that is not empty.
pub open spec fn slot_holds(s: Seq<EntryTemplate>, key: usize, i: int) -> bool {
    0 <= i < s.len() && s[i].0 == key && s[i].1 != EMPTY_VALUE
}

/// Some slot carries `key` with a value that is not empty.
pub open spec fn has_slot(s: Seq<EntryTemplate>, key: usize) -> bool {
    exists|i: int| slot_holds(s, key, i)
}

/// The slot that carries `key` with a value that is not empty.
pub open spec fn slot_of(s: Seq<EntryTemplate>, key: usize) -> int {
    choose|i: int| slot_holds(s, key, i)
}

/// `key` has a live value in some slot.
pub open spec fn has_live(s: Seq<EntryTemplate>, key: usize) -> bool {
    has_slot(s, key) && is_live(s[slot_of(s, key)].1)
}

/// The number of slots among the first `n` whose key is set.
pub open spec fn used_upto(s: Seq<EntryTemplate>, n: int) -> nat
    decreases n,
{
    if n <= 0 {
        0
    } else {
        used_upto(s, n - 1) + if s[n - 1].0 != EMPTY_KEY {
            1nat
        } else {
            0nat
        }
    }
}

/// The number of slots among the first `n` that hold a live value.
pub open spec fn live_upto(s: Seq<EntryTemplate>, n: int) -> nat
    decreases n,
{
    if n <= 0 {
        0
    } else {
        live_upto(s, n - 1) + if is_live(s[n - 1].1) {
            1nat
        } else {
            0nat
        }
    }
}

/// The live keys of the slots `s`, each with its value and the payload that
/// `att` keeps for its slot.
pub open spec fn entries_view<V, A: Attachment<V>>(s: Seq<EntryTemplate>, att: A) -> Map<
    usize,
    (usize, V),
> {
    Map::new(
        |k: usize| has_live(s, k),
        |k: usize| (strip(s[slot_of(s, k)].1), att.payload(slot_of(s, k))),
    )
}

/// The occupancy above which a chunk of `cap` slots grows: seven tenths of it.
pub open spec fn spec_occupation_limit(cap: nat) -> nat {
    cap * 7 / 10
}

/// The capacity of the chunk that replaces one of `cap` slots: four times as
/// many up to `FAST_GROWTH_LIMIT`, twice as many above it, and never more than
/// `MAX_CAPACITY`.
pub open spec fn grown_capacity(cap: nat) -> nat {
    if cap >= MAX_CAPACITY {
        cap
    } else if cap <= FAST_GROWTH_LIMIT {
        cap * 4
    } else if cap * 2 > MAX_CAPACITY {
        MAX_CAPACITY as nat
    } else {
        cap * 2
    }
}

/// Per-slot payloads kept beside the slots of a chunk.
pub trait Attachment<V>: Sized {
    /// The attachment has a place for slot `index`.
    spec fn covers(&self, index: int) -> bool;

    /// A payload was stored for slot `index`.
    spec fn holds(&self, index: int) -> bool;

    /// The payload stored for slot `index`.
    spec fn payload(&self, index: int) -> V;

    fn new(cap: usize) -> (r: Self)
        ensures
            forall|i: int| 0 <= i < cap ==> r.covers(i),
    ;

    fn get(&self, index: usize, key: usize) -> (r: V)
        requires
            self.covers(index as int),
            self.holds(index as int),
        ensures
            r == self.payload(index as int),
    ;

    fn set(&mut self, index: usize, key: usize, att_value: V)
        requires
            old(self).covers(index as int),
        ensures
            forall|i: int| final(self).covers(i) == old(self).covers(i),
            final(self).holds(index as int),
            final(self).payload(index as int) == att_value,
            forall|i: int|
                i != index ==> final(self).holds(i) == old(self).holds(i) && final(self).payload(i)
                    == old(self).payload(i),
    ;

    /// Erases the payload of slot `index`, whose key `key` was taken out.
    /// Payloads are copied in and out of an attachment and own nothing that
    /// would have to be released: the attachment holds afterwards what it held
    /// before.
    fn erase(&mut self, index: usize, key: usize)
        ensures
            forall|i: int| final(self).covers(i) == old(self).covers(i),
            forall|i: int|
                final(self).holds(i) == old(self).holds(i) && final(self).payload(i) == old(self).payload(i),
    ;
}

/// The attachment of a plain word map: it keeps nothing.
pub struct WordAttachment;

impl Attachment<()> for WordAttachment {
    open spec fn covers(&self, index: int) -> bool {
        true
    }

    open spec fn holds(&self, index: int) -> bool {
        true
    }

    open spec fn payload(&self, index: int) -> () {
        ()
    }

    fn new(cap: usize) -> (r: Self) {
        Self
    }

    fn get(&self, index: usize, key: usize) -> (r: ()) {
        ()
    }

    fn set(&mut self, index: usize, key: usize, att_value: ()) {
    }

    fn erase(&mut self, index: usize, key: usize) {
    }
}

/// An attachment that keeps one object per slot.
pub struct ObjectAttachment<T> {
    slots: Vec<Option<T>>,
}

impl<T: Copy> Attachment<T> for ObjectAttachment<T> {
    closed spec fn covers(&self, index: int) -> bool {
        0 <= index < self.slots@.len()
    }

    closed spec fn holds(&self, index: int) -> bool {
        0 <= index < self.slots@.len() && self.slots@[index].is_some()
    }

    closed spec fn payload(&self, index: int) -> T {
        if 0 <= index < self.slots@.len() {
            self.slots@[index].unwrap()
        } else {
            arbitrary()
        }
    }

    fn new(cap: usize) -> (r: Self) {
        let mut slots: Vec<Option<T>> = Vec::new();
        let mut i: usize = 0;
        while i < cap
            invariant
                i <= cap,
                slots@.len() == i,
            decreases cap - i,
        {
            slots.push(None);
            i = i + 1;
        }
        Self { slots }
    }

    fn get(&self, index: usize, key: usize) -> (r: T) {
        match self.slots[index] {
            Some(v) => v,
            None => unreached(),
        }
    }

    fn set(&mut self, index: usize, key: usize, att_value: T) {
        self.slots.set(index, Some(att_value));
    }

    fn erase(&mut self, index: usize, key: usize) {
    }
}

impl ParsedValue {
    /// The value that a plain value word holds.
    pub fn unwrap(&self) -> (r: usize)
        requires
            self is Val,
        ensures
            *self == ParsedValue::Val(r),
    {
        match self {
            ParsedValue::Val(v) => *v,
            _ => unreached(),
        }
    }
}

impl Value {
    /// Reads the raw word `val` by the masks of `table`.
    pub fn new<V, A: Attachment<V>>(val: usize, table: &Table<V, A>) -> (r: Self)
        requires
            table.masks_ok(),
        ensures
            r.raw == val,
            r.parsed == parse_value(val),
    {
        let res = if val == 0 {
            ParsedValue::Empty
        } else {
            let flag: usize = if val >= table.inv_bit_mask {
                table.inv_bit_mask
            } else {
                0
            };
            let actual_val: usize = val - flag;
            if flag != 0 {
                ParsedValue::Prime(actual_val)
            } else if actual_val == 1 {
                ParsedValue::Sentinel
            } else {
                ParsedValue::Val(actual_val)
            }
        };
        Value { raw: val, parsed: res }
    }
}

impl ModOutput {
    /// The outcome `res` at slot `idx`.
    pub fn new(res: ModResult, idx: usize) -> (r: Self)
        ensures
            r.result == res,
            r.index == idx,
    {
        Self { result: res, index: idx }
    }
}

/// One array of slots with its occupancy and attachment.
pub struct Chunk<V, A: Attachment<V>> {
    capacity: usize,
    entries: Vec<EntryTemplate>,
    occu_limit: usize,
    occupation: usize,
    attachment: A,
    shadow: PhantomData<V>,
}

/// A table: the chunk in use and the masks that split a raw value word.
pub struct Table<V, A: Attachment<V>> {
    chunk: Chunk<V, A>,
    val_bit_mask: usize,
    inv_bit_mask: usize,
}

impl<V, A: Attachment<V>> Chunk<V, A> {
    /// The slots.
    pub closed spec fn slots(&self) -> Seq<EntryTemplate> {
        self.entries@
    }

    /// The number of slots.
    pub closed spec fn spec_capacity(&self) -> nat {
        self.capacity as nat
    }

    /// The number of live values.
    pub closed spec fn spec_occupation(&self) -> nat {
        self.occupation as nat
    }

    /// The payload kept for slot `index`.
    pub closed spec fn payload(&self, index: int) -> V {
        self.attachment.payload(index)
    }

    /// The chunk is consistent; it may hold sentinels and primed values.
    pub closed spec fn inv(&self) -> bool {
        &&& self.capacity == self.entries@.len()
        &&& 0 < self.capacity <= MAX_CAPACITY
        &&& is_pow2(self.capacity as nat)
        &&& self.occu_limit == spec_occupation_limit(self.capacity as nat)
        &&& entries_inv(self.entries@)
        &&& self.occupation == live_upto(self.entries@, self.capacity as int)
        &&& forall|i: int| 0 <= i < self.capacity ==> self.attachment.covers(i)
        &&& forall|i: int|
            0 <= i < self.capacity && is_live((#[trigger] self.entries@[i]).1)
                ==> self.attachment.holds(i)
    }

    /// No slot holds a sentinel or a primed value.
    pub closed spec fn at_rest(&self) -> bool {
        forall|i: int|
            0 <= i < self.entries@.len() ==> (#[trigger] self.entries@[i]).1 != SENTINEL_VALUE
                && self.entries@[i].1 < PRIME_FLAG
    }

    /// The live keys with their values and payloads.
    pub closed spec fn view(&self) -> Map<usize, (usize, V)> {
        entries_view(self.entries@, self.attachment)
    }

    /// The two chunks hold the same slots, payloads and counts.
    pub closed spec fn same_content(&self, other: Self) -> bool {
        &&& self.entries@ == other.entries@
        &&& self.capacity == other.capacity
        &&& self.occupation == other.occupation
        &&& self@ == other@
        &&& forall|i: int|
            self.attachment.holds(i) == other.attachment.holds(i) && self.attachment.payload(i)
                == other.attachment.payload(i)
    }

    /// A payload is kept for slot `index`.
    pub closed spec fn holds(&self, index: int) -> bool {
        self.attachment.holds(index)
    }
}

impl<V, A: Attachment<V>> Table<V, A> {
    /// The masks split a word into prime flag and value.
    pub closed spec fn masks_ok(&self) -> bool {
        &&& self.inv_bit_mask == PRIME_FLAG
        &&& self.val_bit_mask == PRIME_FLAG - 1
    }

    /// The table is consistent and at rest: no migration is under way.
    pub closed spec fn wf(&self) -> bool {
        &&& self.masks_ok()
        &&& self.chunk.inv()
        &&& self.chunk.at_rest()
    }

    /// The live keys, each with its value and payload.
    pub closed spec fn view(&self) -> Map<usize, (usize, V)> {
        self.chunk@
    }

    /// The number of live keys.
    pub closed spec fn spec_occupation(&self) -> nat {
        self.chunk.spec_occupation()
    }

    /// The number of slots.
    pub closed spec fn spec_capacity(&self) -> nat {
        self.chunk.spec_capacity()
    }

    /// The number of slots that carry a key, live or not.
    pub closed spec fn spec_used(&self) -> nat {
        used_upto(self.chunk.entries@, self.chunk.capacity as int)
    }
}

/// Reads a raw value word.
pub fn read_value(raw: usize) -> (r: Value)
    ensures
        r.raw == raw,
        r.parsed == parse_value(raw),
{
    let parsed = if raw == EMPTY_VALUE {
        ParsedValue::Empty
    } else if raw >= PRIME_FLAG {
        ParsedValue::Prime(raw - PRIME_FLAG)
    } else if raw == SENTINEL_VALUE {
        ParsedValue::Sentinel
    } else {
        ParsedValue::Val(raw)
    };
    Value { raw, parsed }
}

/// The occupancy above which a chunk of `cap` slots grows.
pub fn occupation_limit(cap: usize) -> (r: usize)
    requires
        cap <= MAX_CAPACITY,
    ensures
        r == spec_occupation_limit(cap as nat),
{
    let wide: u64 = cap as u64;
    (wide * 7 / 10) as usize
}

/// The size in words of one slot.
pub fn entry_size() -> (r: usize)
    ensures
        r == 2,
{
    2
}

/// The size in words of a chunk of `cap` slots.
pub fn chunk_size_of(cap: usize) -> (r: usize)
    requires
        cap <= MAX_CAPACITY,
    ensures
        r == 2 * cap,
{
    cap * entry_size()
}

/// The capacity of a table of `capacity` slots with `occupation` live keys
/// once its occupancy has been checked: the grown capacity where the
/// occupancy is above the limit and the table can still grow.
pub open spec fn spec_checked_capacity(occupation: nat, capacity: nat) -> nat {
    if occupation > spec_occupation_limit(capacity) && capacity < MAX_CAPACITY {
        grown_capacity(capacity)
    } else {
        capacity
    }
}

/// What `modify_entry` promises: `post` and `out` are what the operation `op`
/// on `key` makes of `pre`.
pub open spec fn modify_post<V, A: Attachment<V>>(
    pre: Chunk<V, A>,
    post: Chunk<V, A>,
    key: usize,
    op: ModOp<V>,
    out: ModOutput,
) -> bool {
    let s0 = pre.slots();
    let s1 = post.slots();
    let cap = pre.spec_capacity() as int;
    match out.result {
        ModResult::TableFull => {
            &&& (op is Insert || op is AttemptInsert)
            &&& pre.same_content(post)
            &&& forall|i: int| 0 <= i < cap ==> (#[trigger] s0[i]).0 != EMPTY_KEY
        },
        ModResult::NotFound => {
            &&& (op is Sentinel || op is Empty)
            &&& pre.same_content(post)
            &&& !pre@.contains_key(key)
        },
        ModResult::Sentinel => {
            &&& pre.same_content(post)
            &&& 0 <= out.index < cap
            &&& s0[out.index as int] == (key, SENTINEL_VALUE)
        },
        ModResult::Fail(x) => {
            &&& pre.same_content(post)
            &&& (op is AttemptInsert || op is Empty)
            &&& op is AttemptInsert ==> pre@.contains_key(key) && pre@[key].0 == x
            &&& op is Empty ==> !pre@.contains_key(key) && x == 0
        },
        ModResult::Replaced(x) => {
            &&& pre@.contains_key(key)
            &&& pre@[key].0 == x
            &&& 0 <= out.index < cap
            &&& match op {
                ModOp::Empty => {
                    &&& post@ == pre@.remove(key)
                    &&& post.spec_occupation() == pre.spec_occupation() - 1
                    &&& post.holds(out.index as int)
                    &&& post.payload(out.index as int) == pre@[key].1
                    &&& s1 == s0.update(out.index as int, (key, EMPTY_VALUE))
                },
                ModOp::Insert(v, a) => {
                    &&& post@ == pre@.insert(key, (strip(v), a))
                    &&& post.spec_occupation() == pre.spec_occupation()
                    &&& s1[out.index as int] == (key, v)
                },
                _ => false,
            }
        },
        ModResult::Done(i) => {
            &&& i == out.index
            &&& 0 <= i < cap
            &&& !pre@.contains_key(key) || op is Sentinel
            &&& match op {
                ModOp::Insert(v, a) | ModOp::AttemptInsert(v, a) => {
                    &&& post@ == pre@.insert(key, (strip(v), a))
                    &&& post.spec_occupation() == pre.spec_occupation() + 1
                    &&& s0[i as int].0 == EMPTY_KEY
                    &&& s1 == s0.update(i as int, (key, v))
                },
                ModOp::Sentinel => {
                    &&& post@ == pre@.remove(key)
                    &&& s1[i as int] == (key, SENTINEL_VALUE)
                },
                ModOp::Empty => false,
            }
        },
    }
}

impl<V: Copy, A: Attachment<V>> Chunk<V, A> {
    /// A chunk of `capacity` unused slots.
    pub fn alloc_chunk(capacity: usize) -> (r: Self)
        requires
            0 < capacity <= MAX_CAPACITY,
            is_pow2(capacity as nat),
        ensures
            r.inv(),
            r.at_rest(),
            r@ == Map::<usize, (usize, V)>::empty(),
            r.spec_capacity() == capacity,
            r.spec_occupation() == 0,
            used_upto(r.slots(), capacity as int) == 0,
    {
        let mut entries: Vec<EntryTemplate> = Vec::new();
        let mut i: usize = 0;
        while i < capacity
            invariant
                i <= capacity,
                entries@.len() == i,
                forall|j: int| 0 <= j < i ==> #[trigger] entries@[j] == (EMPTY_KEY, EMPTY_VALUE),
            decreases capacity - i,
        {
            entries.push((EMPTY_KEY, EMPTY_VALUE));
            i = i + 1;
        }
        let attachment = A::new(capacity);
        let r = Chunk {
            capacity,
            entries,
            occu_limit: occupation_limit(capacity),
            occupation: 0,
            attachment,
            shadow: PhantomData,
        };
        proof {
            lemma_fresh_counts(r.entries@, capacity as int);
            assert forall|k: usize| !has_live(r.entries@, k) by {
                if has_slot(r.entries@, k) {
                    let j = slot_of(r.entries@, k);
                    assert(slot_holds(r.entries@, k, j));
                }
            }
            assert(r@ =~= Map::<usize, (usize, V)>::empty());
        }
        r
    }

    /// The key of slot `idx`.
    pub fn get_key(&self, idx: usize) -> (r: usize)
        requires
            idx < self.spec_capacity(),
            self.inv(),
        ensures
            r == self.slots()[idx as int].0,
    {
        self.entries[idx].0
    }

    /// The value of slot `idx`, read.
    pub fn get_value(&self, idx: usize) -> (r: Value)
        requires
            idx < self.spec_capacity(),
            self.inv(),
        ensures
            r.raw == self.slots()[idx as int].1,
            r.parsed == parse_value(r.raw),
    {
        read_value(self.entries[idx].1)
    }

    /// Looks `key` up: the value of the slot that holds it, with the slot's
    /// index, or an empty value with index 0 where no slot holds it.
    pub fn get_from_chunk(&self, key: usize) -> (r: (Value, usize))
        requires
            self.inv(),
        ensures
            r.0.parsed == parse_value(r.0.raw),
            has_slot(self.slots(), key) ==> r.1 == slot_of(self.slots(), key) && r.0.raw
                == self.slots()[r.1 as int].1,
            !has_slot(self.slots(), key) ==> r.0.raw == EMPTY_VALUE && r.1 == 0,
            r.0.raw != EMPTY_VALUE ==> r.1 < self.spec_capacity() && self.slots()[r.1 as int] == (
                key,
                r.0.raw,
            ),
            is_live(r.0.raw) <==> self@.contains_key(key),
            is_live(r.0.raw) ==> self@[key] == (strip(r.0.raw), self.payload(r.1 as int))
                && self.holds(r.1 as int),
    {
        let cap: usize = self.capacity;
        let ghost s = self.entries@;
        let ghost h = home(key, cap as int);
        let mut idx: usize = hash_address(key) % cap;
        let mut counter: usize = 0;
        while counter < cap
            invariant
                cap == self.capacity,
                s == self.entries@,
                self.inv(),
                h == home(key, cap as int),
                0 <= counter <= cap,
                idx < cap,
                counter < cap ==> idx == probe(h, counter as int, cap as int),
                forall|t: int|
                    0 <= t < counter ==> s[#[trigger] probe(h, t, cap as int)].0 != EMPTY_KEY
                        && !slot_holds(s, key, probe(h, t, cap as int)),
            decreases cap - counter,
        {
            let k: usize = self.entries[idx].0;
            if k == key {
                let val_res = read_value(self.entries[idx].1);
                match val_res.parsed {
                    ParsedValue::Empty => {},
                    _ => {
                        proof {
                            assert(slot_holds(s, key, idx as int));
                            lemma_slot_unique(s, key, idx as int);
                        }
                        return (val_res, idx);
                    },
                }
            }
            if k == EMPTY_KEY {
                proof {
                    lemma_probe_miss(s, key, counter as int);
                }
                return (read_value(EMPTY_VALUE), 0);
            }
            idx = if idx + 1 == cap {
                0
            } else {
                idx + 1
            };
            counter = counter + 1;
        }
        proof {
            lemma_probe_miss(s, key, counter as int);
        }
        (read_value(EMPTY_VALUE), 0)
    }

}

impl<V: Copy, A: Attachment<V>> Chunk<V, A> {
    /// Carries out `op` on `key`: probes from the key's home slot, takes a live
    /// value of the key out where the operation displaces it, and writes the
    /// first unused slot where the operation stores something.
    pub fn modify_entry(&mut self, key: usize, op: ModOp<V>) -> (out: ModOutput)
        requires
            old(self).inv(),
            key != EMPTY_KEY,
            match op {
                ModOp::Insert(v, _) | ModOp::AttemptInsert(v, _) => is_live(v) && raw_ok(v),
                _ => true,
            },
        ensures
            final(self).inv(),
            final(self).spec_capacity() == old(self).spec_capacity(),
            modify_post(*old(self), *final(self), key, op, out),
            old(self).at_rest() && !(op is Sentinel) && (match op {
                ModOp::Insert(v, _) | ModOp::AttemptInsert(v, _) => v < PRIME_FLAG,
                _ => true,
            }) ==> final(self).at_rest(),
    {
        let cap: usize = self.capacity;
        let ghost s0 = self.entries@;
        let ghost att0 = self.attachment;
        let ghost h = home(key, cap as int);
        let mut idx: usize = hash_address(key) % cap;
        let mut replaced: Option<usize> = None;
        let mut replaced_at: usize = 0;
        let mut replaced_raw: usize = 0;
        let mut count: usize = 0;
        proof {
            lemma_counts_bounded(s0, cap as int);
        }
        while count < cap
            invariant
                cap == self.capacity,
                cap == old(self).capacity,
                s0 == old(self).entries@,
                att0 == old(self).attachment,
                old(self).inv(),
                self.inv(),
                key != EMPTY_KEY,
                match op {
                    ModOp::Insert(v, _) | ModOp::AttemptInsert(v, _) => is_live(v) && raw_ok(v),
                    _ => true,
                },
                h == home(key, cap as int),
                0 <= count <= cap,
                idx < cap,
                count < cap ==> idx == probe(h, count as int, cap as int),
                forall|t: int|
                    0 <= t < count ==> self.entries@[#[trigger] probe(h, t, cap as int)].0
                        != EMPTY_KEY && !slot_holds(self.entries@, key, probe(h, t, cap as int)),
                self.attachment == att0,
                replaced is None ==> self.entries@ == s0 && self.occupation == old(self).occupation,
                replaced is Some ==> {
                    &&& op is Insert
                    &&& replaced_at < cap
                    &&& slot_holds(s0, key, replaced_at as int)
                    &&& is_live(replaced_raw)
                    &&& s0[replaced_at as int] == (key, replaced_raw)
                    &&& replaced == Some(strip(replaced_raw))
                    &&& self.entries@ == s0.update(replaced_at as int, (key, EMPTY_VALUE))
                    &&& self.occupation == old(self).occupation - 1
                    &&& !has_slot(self.entries@, key)
                },
            decreases cap - count,
        {
            let k: usize = self.entries[idx].0;
            let ghost s = self.entries@;
            if k == key {
                let val = read_value(self.entries[idx].1);
                match val.parsed {
                    ParsedValue::Val(v) | ParsedValue::Prime(v) => {
                        proof {
                            assert(slot_holds(s, key, idx as int));
                            lemma_slot_unique(s, key, idx as int);
                            assert(replaced is None);
                            lemma_live_upto_update(s, idx as int, (key, EMPTY_VALUE), cap as int);
                            lemma_live_upto_update(s, idx as int, (key, SENTINEL_VALUE), cap as int);
                            lemma_view_tombstone(s, att0, key, idx as int);
                            lemma_view_rewrite(s, att0, key, SENTINEL_VALUE, idx as int);
                        }
                        match op {
                            ModOp::Sentinel => {
                                self.entries.set(idx, (key, SENTINEL_VALUE));
                                self.occupation = self.occupation - 1;
                                return ModOutput::new(ModResult::Done(idx), idx);
                            },
                            ModOp::AttemptInsert(_, _) => {
                                return ModOutput::new(ModResult::Fail(v), idx);
                            },
                            ModOp::Empty => {
                                self.entries.set(idx, (key, EMPTY_VALUE));
                                self.occupation = self.occupation - 1;
                                return ModOutput::new(ModResult::Replaced(v), idx);
                            },
                            ModOp::Insert(_, _) => {
                                self.entries.set(idx, (key, EMPTY_VALUE));
                                self.occupation = self.occupation - 1;
                                replaced = Some(v);
                                replaced_at = idx;
                                replaced_raw = val.raw;
                            },
                        }
                    },
                    ParsedValue::Empty => {},
                    ParsedValue::Sentinel => {
                        proof {
                            assert(slot_holds(s, key, idx as int));
                            lemma_slot_unique(s, key, idx as int);
                        }
                        return ModOutput::new(ModResult::Sentinel, idx);
                    },
                }
            } else if k == EMPTY_KEY {
                proof {
                    lemma_probe_miss(s, key, count as int);
                    assert(path_filled(s, h, count as int));
                    lemma_counts_bounded(s, cap as int);
                }
                match op {
                    ModOp::Insert(val, att) | ModOp::AttemptInsert(val, att) => {
                        self.entries.set(idx, (key, val));
                        self.attachment.set(idx, key, att);
                        proof {
                            lemma_live_upto_update(s, idx as int, (key, val), cap as int);
                            lemma_used_upto_update(s, idx as int, (key, val), cap as int);
                            lemma_view_fill(s, att0, self.attachment, key, val, idx as int);
                            lemma_counts_bounded(self.entries@, cap as int);
                            if replaced is Some {
                                lemma_view_tombstone(s0, att0, key, replaced_at as int);
                                assert(old(self)@.remove(key).insert(key, (strip(val), att))
                                    =~= old(self)@.insert(key, (strip(val), att)));
                            }
                        }
                        self.occupation = self.occupation + 1;
                        return match replaced {
                            Some(v) => ModOutput::new(ModResult::Replaced(v), idx),
                            None => ModOutput::new(ModResult::Done(idx), idx),
                        };
                    },
                    ModOp::Sentinel => {
                        self.entries.set(idx, (key, SENTINEL_VALUE));
                        proof {
                            lemma_live_upto_update(s, idx as int, (key, SENTINEL_VALUE), cap as int);
                            lemma_view_fill(s, att0, att0, key, SENTINEL_VALUE, idx as int);
                            assert(old(self)@.remove(key) =~= old(self)@);
                        }
                        return ModOutput::new(ModResult::Done(idx), idx);
                    },
                    ModOp::Empty => {
                        return ModOutput::new(ModResult::Fail(0), idx);
                    },
                }
            }
            idx = if idx + 1 == cap {
                0
            } else {
                idx + 1
            };
            count = count + 1;
        }
        proof {
            lemma_probe_miss(self.entries@, key, count as int);
            assert forall|i: int| 0 <= i < cap implies (#[trigger] self.entries@[i]).0 != EMPTY_KEY by {
                let d = dist(h, i, cap as int);
                assert(probe(h, d, cap as int) == i);
            }
        }
        if replaced.is_some() {
            proof {
                lemma_live_upto_update(
                    self.entries@,
                    replaced_at as int,
                    (key, replaced_raw),
                    cap as int,
                );
                assert(self.entries@.update(replaced_at as int, (key, replaced_raw)) =~= s0);
            }
            self.entries.set(replaced_at, (key, replaced_raw));
            self.occupation = self.occupation + 1;
        }
        match op {
            ModOp::Insert(_, _) | ModOp::AttemptInsert(_, _) => ModOutput::new(
                ModResult::TableFull,
                0,
            ),
            _ => ModOutput::new(ModResult::NotFound, 0),
        }
    }
}

/// The capacity of the chunk that replaces one of `cap` slots.
pub fn grown(cap: usize) -> (r: usize)
    requires
        0 < cap <= MAX_CAPACITY,
        is_pow2(cap as nat),
    ensures
        r == grown_capacity(cap as nat),
        is_pow2(r as nat),
        cap <= r <= MAX_CAPACITY,
        cap < MAX_CAPACITY ==> cap < r,
{
    proof {
        lemma_max_capacity_pow2();
    }
    if cap >= MAX_CAPACITY {
        cap
    } else if cap <= FAST_GROWTH_LIMIT {
        assert(is_pow2((cap * 2) as nat));
        cap * 4
    } else if cap * 2 > MAX_CAPACITY {
        MAX_CAPACITY
    } else {
        cap * 2
    }
}

/// The capacities that the library starts its own tables with are powers
/// of two.
pub proof fn lemma_capacity_pow2(cap: usize)
    requires
        cap == 64 || cap == 128 || cap == 256 || cap == 512 || cap == 1024 || cap == 4096,
    ensures
        is_pow2(cap as nat),
        cap <= MAX_CAPACITY,
{
    reveal_with_fuel(is_pow2, 14);
}

proof fn lemma_max_capacity_pow2()
    ensures
        is_pow2(MAX_CAPACITY as nat),
        is_pow2(DEFAULT_CAPACITY as nat),
{
    reveal_with_fuel(is_pow2, 32);
}

impl<V: Copy, A: Attachment<V>> Table<V, A> {
    /// An empty table of `cap` slots.
    pub fn with_capacity(cap: usize) -> (r: Self)
        requires
            is_pow2(cap as nat),
            cap <= MAX_CAPACITY,
        ensures
            r.wf(),
            r@ == Map::<usize, (usize, V)>::empty(),
            r.spec_capacity() == cap,
            r.spec_occupation() == 0,
    {
        let chunk = Chunk::alloc_chunk(cap);
        Self { chunk, val_bit_mask: PRIME_FLAG - 1, inv_bit_mask: PRIME_FLAG }
    }

    /// An empty table of `cap` slots, or nothing where `cap` is no power of
    /// two or more than `MAX_CAPACITY`.
    pub fn try_with_capacity(cap: usize) -> (r: Option<Self>)
        ensures
            (r is Some) == (is_pow2(cap as nat) && cap <= MAX_CAPACITY),
            r matches Some(table) ==> table.wf() && table@ == Map::<usize, (usize, V)>::empty()
                && table.spec_capacity() == cap && table.spec_occupation() == 0,
    {
        if cap == 0 || cap > MAX_CAPACITY || !crate::utils::is_power_of_2(cap) {
            None
        } else {
            Some(Self::with_capacity(cap))
        }
    }

    /// An empty table of `DEFAULT_CAPACITY` slots.
    pub fn new() -> (r: Self)
        ensures
            r.wf(),
            r@ == Map::<usize, (usize, V)>::empty(),
            r.spec_capacity() == DEFAULT_CAPACITY,
            r.spec_occupation() == 0,
    {
        proof {
            lemma_max_capacity_pow2();
        }
        Self::with_capacity(DEFAULT_CAPACITY)
    }

    /// The number of live keys.
    pub fn occupation(&self) -> (r: usize)
        requires
            self.wf(),
        ensures
            r == self.spec_occupation(),
    {
        self.chunk.occupation
    }

    /// The number of slots.
    pub fn capacity(&self) -> (r: usize)
        requires
            self.wf(),
        ensures
            r == self.spec_capacity(),
            0 < r <= MAX_CAPACITY,
    {
        self.chunk.capacity
    }

    /// The value and payload of `key`, if it is live.
    pub fn get(&self, key: usize) -> (r: Option<(usize, V)>)
        requires
            self.wf(),
        ensures
            r == (if self@.contains_key(key) {
                Some(self@[key])
            } else {
                None
            }),
    {
        let (val, idx) = self.chunk.get_from_chunk(key);
        match val.parsed {
            ParsedValue::Prime(v) | ParsedValue::Val(v) => Some(
                (v, self.chunk.attachment.get(idx, key)),
            ),
            // A migrated slot: its entry lives in the successor chunk, and a
            // table at rest has none.
            ParsedValue::Sentinel => None,
            ParsedValue::Empty => None,
        }
    }

    /// Maps `key` to `value` with the payload `attached_val`, and returns the
    /// value that `key` had.
    pub fn insert(&mut self, key: usize, value: usize, attached_val: V) -> (r: Option<usize>)
        requires
            old(self).wf(),
            key != EMPTY_KEY,
            storable(value),
            old(self).spec_occupation() < MAX_CAPACITY,
        ensures
            final(self).wf(),
            final(self)@ == old(self)@.insert(key, (value, attached_val)),
            r == (if old(self)@.contains_key(key) {
                Some(old(self)@[key].0)
            } else {
                None
            }),
            final(self).spec_occupation() == old(self).spec_occupation() + (if old(self)@.contains_key(key) {
                0nat
            } else {
                1nat
            }),
            ({
                let checked = spec_checked_capacity(old(self).spec_occupation(), old(self).spec_capacity());
                &&& final(self).spec_capacity() == checked || final(self).spec_capacity() == grown_capacity(
                    checked,
                )
                &&& old(self).spec_used() < old(self).spec_capacity() ==> final(self).spec_capacity() == checked
            }),
    {
        let resized = self.check_resize();
        let ghost pre = self.chunk;
        let ghost checked = spec_checked_capacity(old(self).spec_occupation(), old(self).spec_capacity());
        assert(self.spec_capacity() == checked);
        let out = self.chunk.modify_entry(key, ModOp::Insert(value, attached_val));
        proof {
            // A table at rest holds no sentinel for the insertion to run into.
            if out.result is Sentinel {
                assert(pre.entries@[out.index as int].1 != SENTINEL_VALUE);
            }
        }
        match out.result {
            ModResult::Done(_) => None,
            ModResult::Replaced(v) | ModResult::Fail(v) => Some(v),
            ModResult::TableFull => {
                proof {
                    lemma_all_used(pre.slots(), pre.capacity as int);
                    assert(self.spec_used() == self.spec_capacity());
                    // A chunk that has just grown has unused slots.
                    if resized {
                        lemma_counts_bounded(old(self).chunk.slots(), old(self).chunk.capacity as int);
                        assert(old(self).spec_occupation() <= old(self).spec_capacity());
                        assert(grown_capacity(old(self).chunk.capacity as nat) > old(self).chunk.capacity);
                    }
                    assert(!resized);
                    assert(old(self).spec_used() == old(self).spec_capacity());
                }
                // Tombstones have used the chunk up.  The chunk that replaces
                // it holds the live keys only, fewer than it has slots.
                self.migrate();
                let ghost fresh = self.chunk;
                let again = self.chunk.modify_entry(key, ModOp::Insert(value, attached_val));
                proof {
                    if again.result is TableFull {
                        lemma_all_used(fresh.slots(), fresh.capacity as int);
                        lemma_counts_bounded(pre.slots(), pre.capacity as int);
                    }
                    if again.result is Sentinel {
                        assert(fresh.entries@[again.index as int].1 != SENTINEL_VALUE);
                    }
                }
                match again.result {
                    ModResult::Done(_) => None,
                    ModResult::Replaced(v) => Some(v),
                    _ => unreached(),
                }
            },
            ModResult::Sentinel | ModResult::NotFound => unreached(),
        }
    }

    /// Takes `key` out and returns the value and payload that it had.
    pub fn remove(&mut self, key: usize) -> (r: Option<(usize, V)>)
        requires
            old(self).wf(),
        ensures
            final(self).wf(),
            final(self)@ == old(self)@.remove(key),
            r == (if old(self)@.contains_key(key) {
                Some(old(self)@[key])
            } else {
                None
            }),
            final(self).spec_occupation() == old(self).spec_occupation() - (if old(self)@.contains_key(key) {
                1nat
            } else {
                0nat
            }),
            final(self).spec_capacity() == old(self).spec_capacity(),
    {
        if key == EMPTY_KEY {
            proof {
                self.chunk.lemma_no_empty_key();
                assert(self@.remove(key) =~= self@);
            }
            return None;
        }
        let res = self.chunk.modify_entry(key, ModOp::Empty);
        match res.result {
            ModResult::Replaced(v) => {
                let att = self.chunk.attachment.get(res.index, key);
                self.chunk.erase_attachment(res.index, key);
                Some((v, att))
            },
            _ => {
                proof {
                    assert(self@.remove(key) =~= self@);
                }
                None
            },
        }
    }

    /// Grows the table if its occupancy is above the limit.  Returns whether
    /// it did.
    pub fn check_resize(&mut self) -> (resized: bool)
        requires
            old(self).wf(),
        ensures
            final(self).wf(),
            final(self)@ == old(self)@,
            final(self).spec_occupation() == old(self).spec_occupation(),
            resized == (old(self).spec_occupation() > spec_occupation_limit(
                old(self).spec_capacity(),
            ) && old(self).spec_capacity() < MAX_CAPACITY),
            resized ==> final(self).spec_capacity() == grown_capacity(old(self).spec_capacity())
                && final(self).spec_used() == final(self).spec_occupation(),
            !resized ==> final(self).spec_capacity() == old(self).spec_capacity() && final(self).spec_used()
                == old(self).spec_used(),
    {
        if self.chunk.occupation > self.chunk.occu_limit && self.chunk.capacity < MAX_CAPACITY {
            self.migrate();
            true
        } else {
            false
        }
    }

    /// Moves every live key into a fresh chunk of the grown capacity: the
    /// value goes in primed, the slot it came from gets the sentinel, and the
    /// prime is taken off again.
    pub fn migrate(&mut self)
        requires
            old(self).wf(),
        ensures
            final(self).wf(),
            final(self)@ == old(self)@,
            final(self).spec_occupation() == old(self).spec_occupation(),
            final(self).spec_capacity() == grown_capacity(old(self).spec_capacity()),
            final(self).spec_used() == final(self).spec_occupation(),
    {
        let old_cap: usize = self.chunk.capacity;
        let new_cap: usize = grown(old_cap);
        let mut new_chunk: Chunk<V, A> = Chunk::alloc_chunk(new_cap);
        let ghost s0 = self.chunk.entries@;
        let ghost att0 = self.chunk.attachment;
        let mut idx: usize = 0;
        proof {
            lemma_counts_bounded(s0, old_cap as int);
        }
        while idx < old_cap
            invariant
                old(self).wf(),
                s0 == old(self).chunk.entries@,
                att0 == old(self).chunk.attachment,
                self.masks_ok(),
                0 <= idx <= old_cap,
                old_cap == old(self).chunk.capacity,
                old_cap == self.chunk.capacity,
                old_cap == self.chunk.entries@.len(),
                self.chunk.occupation == old(self).chunk.occupation,
                forall|i: int| idx <= i < old_cap ==> #[trigger] self.chunk.entries@[i] == s0[i],
                forall|i: int|
                    idx <= i < old_cap ==> self.chunk.attachment.holds(i) == att0.holds(i)
                        && self.chunk.attachment.payload(i) == att0.payload(i),
                forall|i: int| self.chunk.attachment.covers(i) == att0.covers(i),
                new_cap == grown_capacity(old_cap as nat),
                new_chunk.inv(),
                new_chunk.at_rest(),
                new_chunk.capacity == new_cap,
                new_chunk.occupation == live_upto(s0, idx as int),
                used_upto(new_chunk.entries@, new_cap as int) == live_upto(s0, idx as int),
                live_upto(s0, old_cap as int) == old(self).chunk.occupation,
                forall|k: usize|
                    #![trigger new_chunk@.contains_key(k)]
                    #![trigger has_live(s0, k)]
                    new_chunk@.contains_key(k) <==> has_live(s0, k) && slot_of(s0, k) < idx,
                forall|k: usize|
                    #![trigger new_chunk@.contains_key(k)]
                    new_chunk@.contains_key(k) ==> new_chunk@[k] == entries_view(s0, att0)[k],
            decreases old_cap - idx,
        {
            let key: usize = self.chunk.entries[idx].0;
            let raw: usize = self.chunk.entries[idx].1;
            let value = read_value(raw);
            proof {
                lemma_live_mono(s0, idx as int + 1, old_cap as int);
            }
            if key != EMPTY_KEY {
                match value.parsed {
                    ParsedValue::Val(v) => {
                        assert(is_live(s0[idx as int].1));
                        assert(att0.covers(idx as int) && att0.holds(idx as int));
                        let primed_val: usize = raw + PRIME_FLAG;
                        let attached_val = self.chunk.attachment.get(idx, key);
                        let ghost before = new_chunk;
                        proof {
                            assert(slot_holds(s0, key, idx as int));
                            lemma_slot_unique(s0, key, idx as int);
                        }
                        let insertion = new_chunk.modify_entry(
                            key,
                            ModOp::AttemptInsert(primed_val, attached_val),
                        );
                        proof {
                            // The new chunk has room: it holds the live keys
                            // met so far, and this one is yet to come.  It
                            // holds no sentinel, and not this key, of which
                            // the old chunk has but one live slot.
                            assert(live_upto(s0, idx as int + 1) == live_upto(s0, idx as int) + 1);
                            lemma_counts_bounded(s0, old_cap as int);
                            if insertion.result is TableFull {
                                lemma_all_used(before.slots(), new_cap as int);
                            }
                            if insertion.result is Sentinel {
                                assert(before.entries@[insertion.index as int].1 != SENTINEL_VALUE);
                            }
                            if insertion.result is Fail {
                                assert(before@.contains_key(key));
                            }
                        }
                        let slot: usize = match insertion.result {
                            ModResult::Done(slot) => slot,
                            _ => unreached(),
                        };
                        // The value is in its new place: leave the sentinel
                        // behind and take the prime off.
                        self.chunk.entries.set(idx, (key, SENTINEL_VALUE));
                        let ghost primed = new_chunk;
                        proof {
                            let s = new_chunk.entries@;
                            assert(slot_holds(s, key, slot as int));
                            lemma_view_rewrite(s, new_chunk.attachment, key, raw, slot as int);
                            lemma_live_upto_update(s, slot as int, (key, raw), new_cap as int);
                            lemma_used_upto_update(s, slot as int, (key, raw), new_cap as int);
                            lemma_used_upto_update(
                                before.entries@,
                                slot as int,
                                (key, primed_val),
                                new_cap as int,
                            );
                            assert(primed@.insert(key, (strip(raw), primed.payload(slot as int)))
                                =~= primed@);
                        }
                        new_chunk.entries.set(slot, (key, raw));
                        proof {
                            assert(new_chunk@ == primed@);
                            assert forall|k: usize|
                                #![trigger new_chunk@.contains_key(k)]
                                #![trigger has_live(s0, k)]
                                new_chunk@.contains_key(k) <==> has_live(s0, k) && slot_of(s0, k)
                                    < idx + 1 by {
                                if k != key {
                                    assert(before@.contains_key(k) == new_chunk@.contains_key(k));
                                }
                            }
                            assert forall|k: usize|
                                #![trigger new_chunk@.contains_key(k)]
                                new_chunk@.contains_key(k) implies new_chunk@[k] == entries_view(
                                s0,
                                att0,
                            )[k] by {
                                if k != key {
                                    assert(before@.contains_key(k));
                                    assert(new_chunk@[k] == before@[k]);
                                }
                            }
                        }
                        self.chunk.attachment.erase(idx, key);
                    },
                    // A chunk at rest holds neither primed values nor sentinels.
                    ParsedValue::Prime(_) => {
                        assert(s0[idx as int].1 < PRIME_FLAG);
                    },
                    ParsedValue::Sentinel => {
                        assert(s0[idx as int].1 != SENTINEL_VALUE);
                    },
                    ParsedValue::Empty => {
                        proof {
                            assert forall|k: usize|
                                #![trigger new_chunk@.contains_key(k)]
                                #![trigger has_live(s0, k)]
                                new_chunk@.contains_key(k) <==> has_live(s0, k) && slot_of(s0, k)
                                    < idx + 1 by {
                                if has_live(s0, k) && slot_of(s0, k) == idx {
                                    assert(slot_holds(s0, k, slot_of(s0, k)));
                                }
                            }
                        }
                    },
                }
            } else {
                proof {
                    assert forall|k: usize|
                        #![trigger new_chunk@.contains_key(k)]
                        #![trigger has_live(s0, k)]
                        new_chunk@.contains_key(k) <==> has_live(s0, k) && slot_of(s0, k) < idx
                            + 1 by {
                        if has_live(s0, k) && slot_of(s0, k) == idx {
                            assert(slot_holds(s0, k, slot_of(s0, k)));
                        }
                    }
                }
            }
            idx = idx + 1;
        }
        proof {
            assert forall|k: usize| new_chunk@.contains_key(k) <==> old(self)@.contains_key(k) by {
                if has_live(s0, k) {
                    assert(slot_holds(s0, k, slot_of(s0, k)));
                }
            }
            assert(new_chunk@ =~= old(self)@);
        }
        self.chunk = new_chunk;
    }
}

impl<V, A: Attachment<V>> Chunk<V, A> {
    /// The unused key is never live.
    pub proof fn lemma_no_empty_key(&self)
        requires
            self.inv(),
        ensures
            !self@.contains_key(EMPTY_KEY),
    {
        if has_slot(self.entries@, EMPTY_KEY) {
            let j = slot_of(self.entries@, EMPTY_KEY);
            assert(slot_holds(self.entries@, EMPTY_KEY, j));
        }
    }

    /// Has the attachment erase the payload of a slot that holds no live
    /// value.  The payloads are trivially copyable, so there is nothing to
    /// release: the chunk holds the slots, payloads and counts that it held.
    pub fn erase_attachment(&mut self, index: usize, key: usize)
        requires
            old(self).inv(),
            index < old(self).spec_capacity(),
            !is_live(old(self).slots()[index as int].1),
        ensures
            final(self).inv(),
            final(self)@ == old(self)@,
            final(self).slots() == old(self).slots(),
            final(self).spec_occupation() == old(self).spec_occupation(),
            final(self).spec_capacity() == old(self).spec_capacity(),
            old(self).at_rest() ==> final(self).at_rest(),
            final(self).same_content(*old(self)),
            forall|i: int|
                final(self).holds(i) == old(self).holds(i) && final(self).payload(i) == old(self).payload(i),
    {
        let ghost att0 = self.attachment;
        self.attachment.erase(index, key);
        proof {
            let s = self.entries@;
            assert forall|k: usize| has_live(s, k) implies slot_of(s, k) != index by {
                assert(slot_holds(s, k, slot_of(s, k)));
            }
            assert(entries_view(s, self.attachment) =~= entries_view(s, att0));
        }
    }
}

proof fn lemma_live_mono(s: Seq<EntryTemplate>, a: int, b: int)
    requires
        0 <= a <= b <= s.len(),
    ensures
        live_upto(s, a) <= live_upto(s, b),
    decreases b - a,
{
    if a < b {
        lemma_live_mono(s, a, b - 1);
    }
}

/// The value word that an object map stores beside each payload: all bits
/// below the prime flag.
pub const OBJECT_MARKER: usize = PRIME_FLAG - 1;

/// A map from keys to values over a table.
pub trait KeyedMap<K, V>: Sized {
    /// The map is consistent.
    spec fn wf(&self) -> bool;

    /// The keys with their values.
    spec fn contents(&self) -> Map<K, V>;

    /// The number of keys.
    spec fn spec_len(&self) -> nat;

    /// A key that the map accepts.
    spec fn key_ok(key: K) -> bool;

    /// A value that the map accepts.
    spec fn value_ok(value: V) -> bool;

    fn with_capacity(cap: usize) -> (r: Self)
        requires
            is_pow2(cap as nat),
            cap <= MAX_CAPACITY,
        ensures
            r.wf(),
            r.contents() == Map::<K, V>::empty(),
            r.spec_len() == 0,
    ;

    fn get(&self, key: K) -> (r: Option<V>)
        requires
            self.wf(),
        ensures
            r == (if self.contents().contains_key(key) {
                Some(self.contents()[key])
            } else {
                None
            }),
    ;

    /// Maps `key` to `value`; the result tells whether `key` had a value.
    fn insert(&mut self, key: K, value: V) -> (r: Option<()>)
        requires
            old(self).wf(),
            Self::key_ok(key),
            Self::value_ok(value),
            old(self).spec_len() < MAX_CAPACITY,
        ensures
            final(self).wf(),
            final(self).contents() == old(self).contents().insert(key, value),
            (r is Some) == old(self).contents().contains_key(key),
            final(self).spec_len() == old(self).spec_len() + (if old(self).contents().contains_key(
                key,
            ) {
                0nat
            } else {
                1nat
            }),
    ;

    fn remove(&mut self, key: K) -> (r: Option<V>)
        requires
            old(self).wf(),
        ensures
            final(self).wf(),
            final(self).contents() == old(self).contents().remove(key),
            r == (if old(self).contents().contains_key(key) {
                Some(old(self).contents()[key])
            } else {
                None
            }),
            final(self).spec_len() == old(self).spec_len() - (if old(self).contents().contains_key(
                key,
            ) {
                1nat
            } else {
                0nat
            }),
    ;
}

/// A table without payloads.
pub type WordTable = Table<(), WordAttachment>;

/// A map from words to objects: the table keeps a marker word, the
/// attachment keeps the object.
pub struct ObjectMap<V: Copy> {
    table: Table<V, ObjectAttachment<V>>,
}

impl<V: Copy> ObjectMap<V> {
    /// An empty map over a table of `cap` slots, or nothing where `cap` is no
    /// power of two or more than `MAX_CAPACITY`.
    pub fn try_with_capacity(cap: usize) -> (r: Option<Self>)
        ensures
            (r is Some) == (is_pow2(cap as nat) && cap <= MAX_CAPACITY),
            r matches Some(map) ==> map.wf() && map.contents() == Map::<usize, V>::empty()
                && map.spec_len() == 0,
    {
        if cap == 0 || cap > MAX_CAPACITY || !crate::utils::is_power_of_2(cap) {
            None
        } else {
            Some(Self::with_capacity(cap))
        }
    }

    /// The number of keys.
    pub fn len(&self) -> (r: usize)
        requires
            self.wf(),
        ensures
            r == self.spec_len(),
    {
        self.table.occupation()
    }
}

impl<V: Copy> KeyedMap<usize, V> for ObjectMap<V> {
    closed spec fn wf(&self) -> bool {
        &&& self.table.wf()
        &&& forall|k: usize| #[trigger]
            self.table@.contains_key(k) ==> self.table@[k].0 == OBJECT_MARKER
    }

    closed spec fn contents(&self) -> Map<usize, V> {
        Map::new(|k: usize| self.table@.contains_key(k), |k: usize| self.table@[k].1)
    }

    closed spec fn spec_len(&self) -> nat {
        self.table.spec_occupation()
    }

    open spec fn key_ok(key: usize) -> bool {
        key != EMPTY_KEY
    }

    open spec fn value_ok(value: V) -> bool {
        true
    }

    fn with_capacity(cap: usize) -> (r: Self) {
        let r = Self { table: Table::with_capacity(cap) };
        assert(r.contents() =~= Map::<usize, V>::empty());
        r
    }

    fn get(&self, key: usize) -> (r: Option<V>) {
        match self.table.get(key) {
            Some(v) => Some(v.1),
            None => None,
        }
    }

    fn insert(&mut self, key: usize, value: V) -> (r: Option<()>) {
        let prior = self.table.insert(key, OBJECT_MARKER, value);
        assert(self.contents() =~= old(self).contents().insert(key, value));
        match prior {
            Some(_) => Some(()),
            None => None,
        }
    }

    fn remove(&mut self, key: usize) -> (r: Option<V>) {
        let prior = self.table.remove(key);
        assert(self.contents() =~= old(self).contents().remove(key));
        match prior {
            Some(v) => Some(v.1),
            None => None,
        }
    }
}

/// A map from words to words.
pub struct WordMap {
    table: WordTable,
}

impl WordMap {
    /// An empty map over a table of `cap` slots, or nothing where `cap` is no
    /// power of two or more than `MAX_CAPACITY`.
    pub fn try_with_capacity(cap: usize) -> (r: Option<Self>)
        ensures
            (r is Some) == (is_pow2(cap as nat) && cap <= MAX_CAPACITY),
            r matches Some(map) ==> map.wf() && map.contents() == Map::<usize, usize>::empty()
                && map.spec_len() == 0 && map.spec_capacity() == cap,
    {
        if cap == 0 || cap > MAX_CAPACITY || !crate::utils::is_power_of_2(cap) {
            None
        } else {
            let map = Self { table: Table::with_capacity(cap) };
            assert(map.contents() =~= Map::<usize, usize>::empty());
            Some(map)
        }
    }

    /// The number of keys.
    pub fn len(&self) -> (r: usize)
        requires
            self.wf(),
        ensures
            r == self.spec_len(),
    {
        self.table.occupation()
    }

    /// The number of slots.
    pub fn capacity(&self) -> (r: usize)
        requires
            self.wf(),
        ensures
            r == self.spec_capacity(),
    {
        self.table.capacity()
    }

    /// The number of slots.
    pub closed spec fn spec_capacity(&self) -> nat {
        self.table.spec_capacity()
    }
}

impl KeyedMap<usize, usize> for WordMap {
    closed spec fn wf(&self) -> bool {
        self.table.wf()
    }

    closed spec fn contents(&self) -> Map<usize, usize> {
        Map::new(|k: usize| self.table@.contains_key(k), |k: usize| self.table@[k].0)
    }

    closed spec fn spec_len(&self) -> nat {
        self.table.spec_occupation()
    }

    open spec fn key_ok(key: usize) -> bool {
        key != EMPTY_KEY
    }

    open spec fn value_ok(value: usize) -> bool {
        storable(value)
    }

    fn with_capacity(cap: usize) -> (r: Self) {
        let r = Self { table: Table::with_capacity(cap) };
        assert(r.contents() =~= Map::<usize, usize>::empty());
        r
    }

    fn get(&self, key: usize) -> (r: Option<usize>) {
        match self.table.get(key) {
            Some(v) => Some(v.0),
            None => None,
        }
    }

    fn insert(&mut self, key: usize, value: usize) -> (r: Option<()>) {
        let prior = self.table.insert(key, value, ());
        assert(self.contents() =~= old(self).contents().insert(key, value));
        match prior {
            Some(_) => Some(()),
            None => None,
        }
    }

    fn remove(&mut self, key: usize) -> (r: Option<usize>) {
        let prior = self.table.remove(key);
        assert(self.contents() =~= old(self).contents().remove(key));
        match prior {
            Some(v) => Some(v.0),
            None => None,
        }
    }
}

/// One step of a history of a map.
pub enum MapStep<K, V> {
    Insert(K, V),
    Remove(K),
}

/// The map that the history `steps` makes of `m`.
pub open spec fn replay<K, V>(m: Map<K, V>, steps: Seq<MapStep<K, V>>) -> Map<K, V>
    decreases steps.len(),
{
    if steps.len() == 0 {
        m
    } else {
        let before = replay(m, steps.drop_last());
        match steps.last() {
            MapStep::Insert(k, v) => before.insert(k, v),
            MapStep::Remove(k) => before.remove(k),
        }
    }
}

/// What the most recent step of `steps` that names `key` left for it: the
/// value of an insert, nothing after a remove or where no step names it.
pub open spec fn last_write<K, V>(steps: Seq<MapStep<K, V>>, key: K) -> Option<V>
    decreases steps.len(),
{
    if steps.len() == 0 {
        None
    } else {
        match steps.last() {
            MapStep::Insert(k, v) => if k == key {
                Some(v)
            } else {
                last_write(steps.drop_last(), key)
            },
            MapStep::Remove(k) => if k == key {
                None
            } else {
                last_write(steps.drop_last(), key)
            },
        }
    }
}

/// After any history of inserts and removes on an empty map, a key maps to
/// the value of its most recent insert that no later remove took out, and to
/// nothing otherwise.  `insert`, `remove` and `get` of the maps of this module
/// are stated over the same map operations.
pub proof fn lemma_replay_last_write<K, V>(steps: Seq<MapStep<K, V>>, key: K)
    ensures
        replay(Map::<K, V>::empty(), steps).contains_key(key) == last_write(steps, key).is_some(),
        last_write(steps, key) is Some ==> replay(Map::<K, V>::empty(), steps)[key] == last_write(
            steps,
            key,
        ).unwrap(),
    decreases steps.len(),
{
    if steps.len() > 0 {
        lemma_replay_last_write(steps.drop_last(), key);
    }
}

/// The keys that have a live value in one of the first `n` slots.
pub open spec fn keys_upto(s: Seq<EntryTemplate>, n: int) -> Set<usize> {
    Set::new(|k: usize| exists|i: int| 0 <= i < n && #[trigger] s[i] == (k, s[i].1) && is_live(s[i].1))
}

/// In a consistent table each live slot stands for a key of its own: there
/// are as many live keys as live slots.
pub proof fn lemma_live_keys(s: Seq<EntryTemplate>, n: int)
    requires
        entries_inv(s),
        0 <= n <= s.len(),
    ensures
        keys_upto(s, n).finite(),
        keys_upto(s, n).len() == live_upto(s, n),
    decreases n,
{
    if n == 0 {
        assert(keys_upto(s, 0) =~= Set::<usize>::empty());
    } else {
        lemma_live_keys(s, n - 1);
        let before = keys_upto(s, n - 1);
        let slot = s[n - 1];
        if is_live(slot.1) {
            assert(!before.contains(slot.0)) by {
                if before.contains(slot.0) {
                    let i = choose|i: int|
                        0 <= i < n - 1 && #[trigger] s[i] == (slot.0, s[i].1) && is_live(s[i].1);
                    assert(s[i].0 == s[n - 1].0);
                }
            }
            assert(keys_upto(s, n) =~= before.insert(slot.0)) by {
                assert(s[n - 1] == (slot.0, s[n - 1].1));
            }
        } else {
            assert(keys_upto(s, n) =~= before);
        }
    }
}

/// The live keys of a consistent table are the keys of its view.
pub proof fn lemma_view_keys<V, A: Attachment<V>>(s: Seq<EntryTemplate>, att: A)
    requires
        entries_inv(s),
    ensures
        entries_view(s, att).dom() == keys_upto(s, s.len() as int),
{
    assert forall|k: usize| entries_view(s, att).dom().contains(k) == keys_upto(
        s,
        s.len() as int,
    ).contains(k) by {
        if has_live(s, k) {
            let i = slot_of(s, k);
            assert(slot_holds(s, k, i));
            assert(s[i] == (k, s[i].1));
        }
        if keys_upto(s, s.len() as int).contains(k) {
            let i = choose|i: int|
                0 <= i < s.len() && #[trigger] s[i] == (k, s[i].1) && is_live(s[i].1);
            assert(slot_holds(s, k, i));
            lemma_slot_unique(s, k, i);
        }
    }
    assert(entries_view(s, att).dom() =~= keys_upto(s, s.len() as int));
}

impl<V, A: Attachment<V>> Table<V, A> {
    /// The occupancy of a table is the number of its keys.
    pub proof fn lemma_occupation(&self)
        requires
            self.wf(),
        ensures
            self@.dom().finite(),
            self@.dom().len() == self.spec_occupation(),
    {
        lemma_live_keys(self.chunk.entries@, self.chunk.entries@.len() as int);
        lemma_view_keys(self.chunk.entries@, self.chunk.attachment);
    }

    /// The unused key is never in the table.
    pub proof fn lemma_no_empty_key(&self)
        requires
            self.wf(),
        ensures
            !self@.contains_key(EMPTY_KEY),
    {
        self.chunk.lemma_no_empty_key();
    }
}

impl WordMap {
    /// The unused key is never in the map.
    pub proof fn lemma_no_empty_key(&self)
        requires
            self.wf(),
        ensures
            !self.contents().contains_key(EMPTY_KEY),
    {
        self.table.lemma_no_empty_key();
    }

    /// The length of a map is the number of its keys.
    pub proof fn lemma_len(&self)
        requires
            self.wf(),
        ensures
            self.contents().dom().finite(),
            self.contents().dom().len() == self.spec_len(),
            self.spec_len() == 0 <==> self.contents() == Map::<usize, usize>::empty(),
    {
        self.table.lemma_occupation();
        assert(self.contents().dom() =~= self.table@.dom());
        if self.spec_len() == 0 {
            assert(self.contents() =~= Map::<usize, usize>::empty());
        }
    }
}

impl<V: Copy> ObjectMap<V> {
    /// The unused key is never in the map.
    pub proof fn lemma_no_empty_key(&self)
        requires
            self.wf(),
        ensures
            !self.contents().contains_key(EMPTY_KEY),
    {
        self.table.lemma_no_empty_key();
    }

    /// The length of a map is the number of its keys.
    pub proof fn lemma_len(&self)
        requires
            self.wf(),
        ensures
            self.contents().dom().finite(),
            self.contents().dom().len() == self.spec_len(),
    {
        self.table.lemma_occupation();
        assert(self.contents().dom() =~= self.table@.dom());
    }
}

// Facts about probing tables

proof fn lemma_slot_unique(s: Seq<EntryTemplate>, key: usize, i: int)
    requires
        entries_inv(s),
        slot_holds(s, key, i),
    ensures
        has_slot(s, key),
        slot_of(s, key) == i,
        key != EMPTY_KEY,
{
    let j = slot_of(s, key);
    assert(slot_holds(s, key, j));
    if j != i {
        assert(s[i].0 == s[j].0);
    }
}

proof fn lemma_live_upto_update(s: Seq<EntryTemplate>, i: int, e: EntryTemplate, n: int)
    requires
        0 <= i < s.len(),
        0 <= n <= s.len(),
    ensures
        live_upto(s.update(i, e), n) == live_upto(s, n) + (if i < n {
            (if is_live(e.1) {
                1int
            } else {
                0int
            }) - (if is_live(s[i].1) {
                1int
            } else {
                0int
            })
        } else {
            0int
        }),
    decreases n,
{
    if n > 0 {
        lemma_live_upto_update(s, i, e, n - 1);
    }
}

proof fn lemma_used_upto_update(s: Seq<EntryTemplate>, i: int, e: EntryTemplate, n: int)
    requires
        0 <= i < s.len(),
        0 <= n <= s.len(),
    ensures
        used_upto(s.update(i, e), n) == used_upto(s, n) + (if i < n {
            (if e.0 != EMPTY_KEY {
                1int
            } else {
                0int
            }) - (if s[i].0 != EMPTY_KEY {
                1int
            } else {
                0int
            })
        } else {
            0int
        }),
    decreases n,
{
    if n > 0 {
        lemma_used_upto_update(s, i, e, n - 1);
    }
}

proof fn lemma_counts_bounded(s: Seq<EntryTemplate>, n: int)
    requires
        0 <= n <= s.len(),
        forall|i: int| 0 <= i < s.len() && (#[trigger] s[i]).0 == EMPTY_KEY ==> s[i].1 == EMPTY_VALUE,
    ensures
        live_upto(s, n) <= used_upto(s, n) <= n,
    decreases n,
{
    if n > 0 {
        lemma_counts_bounded(s, n - 1);
    }
}

/// All slots used: the count says so.
proof fn lemma_all_used(s: Seq<EntryTemplate>, n: int)
    requires
        0 <= n <= s.len(),
        forall|i: int| 0 <= i < n ==> (#[trigger] s[i]).0 != EMPTY_KEY,
    ensures
        used_upto(s, n) == n,
    decreases n,
{
    if n > 0 {
        lemma_all_used(s, n - 1);
    }
}

proof fn lemma_fresh_counts(s: Seq<EntryTemplate>, n: int)
    requires
        0 <= n <= s.len(),
        forall|i: int| 0 <= i < s.len() ==> #[trigger] s[i] == (EMPTY_KEY, EMPTY_VALUE),
    ensures
        live_upto(s, n) == 0,
        used_upto(s, n) == 0,
    decreases n,
{
    if n > 0 {
        lemma_fresh_counts(s, n - 1);
    }
}

/// A probe that met an unused slot after visiting only slots that do not hold
/// `key` shows that no slot holds it.
proof fn lemma_probe_miss(s: Seq<EntryTemplate>, key: usize, c: int)
    requires
        entries_inv(s),
        s.len() > 0,
        0 <= c <= s.len(),
        c < s.len() ==> s[probe(home(key, s.len() as int), c, s.len() as int)].0 == EMPTY_KEY,
        forall|t: int|
            0 <= t < c ==> !slot_holds(s, key, #[trigger] probe(home(key, s.len() as int), t, s.len() as int)),
    ensures
        !has_slot(s, key),
{
    let cap = s.len() as int;
    let h = home(key, cap);
    assert forall|i: int| !slot_holds(s, key, i) by {
        if slot_holds(s, key, i) {
            let d = dist(h, i, cap);
            assert(probe(h, d, cap) == i);
            assert(s[i].0 != EMPTY_KEY);
            if d < c {
                assert(!slot_holds(s, key, probe(h, d, cap)));
            } else if d > c {
                assert(path_filled(s, h, d));
                assert(s[probe(h, c, cap)].0 != EMPTY_KEY);
            }
        }
    }
}

/// Emptying the value of the slot that holds `key` takes `key` out and leaves
/// every other key as it was.
proof fn lemma_view_tombstone<V, A: Attachment<V>>(s: Seq<EntryTemplate>, att: A, key: usize, l: int)
    requires
        entries_inv(s),
        slot_holds(s, key, l),
    ensures
        entries_inv(s.update(l, (key, EMPTY_VALUE))),
        !has_slot(s.update(l, (key, EMPTY_VALUE)), key),
        entries_view(s.update(l, (key, EMPTY_VALUE)), att) == entries_view(s, att).remove(key),
        is_live(s[l].1) ==> entries_view(s, att).contains_key(key) && entries_view(s, att)[key] == (
            strip(s[l].1),
            att.payload(l),
        ),
        !is_live(s[l].1) ==> !entries_view(s, att).contains_key(key),
{
    let s1 = s.update(l, (key, EMPTY_VALUE));
    let cap = s.len() as int;
    lemma_slot_unique(s, key, l);
    assert forall|i: int| 0 <= i < s1.len() && (#[trigger] s1[i]).0 != EMPTY_KEY implies path_filled(
        s1,
        home(s1[i].0, cap),
        dist(home(s1[i].0, cap), i, cap),
    ) by {
        assert(s[i].0 == s1[i].0);
        let h = home(s[i].0, cap);
        assert(path_filled(s, h, dist(h, i, cap)));
        assert forall|t: int| 0 <= t < dist(h, i, cap) implies s1[#[trigger] probe(h, t, cap)].0
            != EMPTY_KEY by {
            assert(s1[probe(h, t, cap)].0 == s[probe(h, t, cap)].0);
        }
    }
    assert forall|i: int, j: int|
        0 <= i < s1.len() && 0 <= j < s1.len() && i != j && (#[trigger] s1[i]).0 == (
        #[trigger] s1[j]).0 && s1[i].0 != EMPTY_KEY implies s1[i].1 == EMPTY_VALUE || s1[j].1
        == EMPTY_VALUE by {
        assert(s[i].0 == s[j].0);
    }
    assert(entries_inv(s1));
    assert forall|i: int| !slot_holds(s1, key, i) by {
        if slot_holds(s1, key, i) {
            assert(i != l);
            assert(slot_holds(s, key, i));
            lemma_slot_unique(s, key, i);
        }
    }
    assert forall|k: usize| k != key implies (has_live(s1, k) == has_live(s, k) && (has_live(s, k)
        ==> slot_of(s1, k) == slot_of(s, k) && s1[slot_of(s, k)] == s[slot_of(s, k)])) by {
        if has_slot(s, k) {
            let j = slot_of(s, k);
            assert(slot_holds(s, k, j));
            assert(slot_holds(s1, k, j));
            lemma_slot_unique(s1, k, j);
        }
        if has_slot(s1, k) {
            let j = slot_of(s1, k);
            assert(slot_holds(s1, k, j));
            assert(slot_holds(s, k, j));
            lemma_slot_unique(s, k, j);
        }
    }
    assert(entries_view(s1, att) =~= entries_view(s, att).remove(key));
}

/// Writing `key` with the value `v` into an unused slot that the probe for
/// `key` reaches, while no slot holds `key`, adds `key` and leaves every other
/// key as it was.
proof fn lemma_view_fill<V, A: Attachment<V>>(
    s: Seq<EntryTemplate>,
    att0: A,
    att1: A,
    key: usize,
    v: usize,
    e: int,
)
    requires
        entries_inv(s),
        0 <= e < s.len(),
        s[e].0 == EMPTY_KEY,
        key != EMPTY_KEY,
        v != EMPTY_VALUE,
        raw_ok(v),
        !has_slot(s, key),
        path_filled(s, home(key, s.len() as int), dist(home(key, s.len() as int), e, s.len() as int)),
        forall|i: int| i != e ==> att1.payload(i) == att0.payload(i),
    ensures
        entries_inv(s.update(e, (key, v))),
        slot_holds(s.update(e, (key, v)), key, e),
        is_live(v) ==> entries_view(s.update(e, (key, v)), att1) == entries_view(s, att0).insert(
            key,
            (strip(v), att1.payload(e)),
        ),
        !is_live(v) ==> entries_view(s.update(e, (key, v)), att1) == entries_view(s, att0),
        !entries_view(s, att0).contains_key(key),
{
    let s1 = s.update(e, (key, v));
    let cap = s.len() as int;
    assert forall|i: int| 0 <= i < s1.len() && (#[trigger] s1[i]).0 != EMPTY_KEY implies path_filled(
        s1,
        home(s1[i].0, cap),
        dist(home(s1[i].0, cap), i, cap),
    ) by {
        let h = home(s1[i].0, cap);
        if i != e {
            assert(s[i].0 == s1[i].0);
            assert(path_filled(s, h, dist(h, i, cap)));
        }
        assert forall|t: int| 0 <= t < dist(h, i, cap) implies s1[#[trigger] probe(h, t, cap)].0
            != EMPTY_KEY by {
            if probe(h, t, cap) != e {
                assert(s1[probe(h, t, cap)].0 == s[probe(h, t, cap)].0);
            }
        }
    }
    assert forall|i: int, j: int|
        0 <= i < s1.len() && 0 <= j < s1.len() && i != j && (#[trigger] s1[i]).0 == (
        #[trigger] s1[j]).0 && s1[i].0 != EMPTY_KEY implies s1[i].1 == EMPTY_VALUE || s1[j].1
        == EMPTY_VALUE by {
        if i == e {
            assert(s[j].0 == key);
            assert(!slot_holds(s, key, j));
        } else if j == e {
            assert(s[i].0 == key);
            assert(!slot_holds(s, key, i));
        } else {
            assert(s[i].0 == s[j].0);
        }
    }
    assert(entries_inv(s1));
    assert(slot_holds(s1, key, e));
    lemma_slot_unique(s1, key, e);
    assert forall|k: usize| k != key implies (has_live(s1, k) == has_live(s, k) && (has_live(s, k)
        ==> slot_of(s1, k) == slot_of(s, k) && slot_of(s, k) != e && s1[slot_of(s, k)] == s[slot_of(
        s,
        k,
    )])) by {
        if has_slot(s, k) {
            let j = slot_of(s, k);
            assert(slot_holds(s, k, j));
            assert(slot_holds(s1, k, j));
            lemma_slot_unique(s1, k, j);
        }
        if has_slot(s1, k) {
            let j = slot_of(s1, k);
            assert(slot_holds(s1, k, j));
            assert(slot_holds(s, k, j));
            lemma_slot_unique(s, k, j);
        }
    }
    if is_live(v) {
        assert(entries_view(s1, att1) =~= entries_view(s, att0).insert(
            key,
            (strip(v), att1.payload(e)),
        ));
    } else {
        assert(entries_view(s1, att1) =~= entries_view(s, att0));
    }
}

/// Replacing the value in the slot that holds `key` by another value that is
/// not empty changes what `key` maps to and nothing else.
proof fn lemma_view_rewrite<V, A: Attachment<V>>(s: Seq<EntryTemplate>, att: A, key: usize, v: usize, l: int)
    requires
        entries_inv(s),
        slot_holds(s, key, l),
        v != EMPTY_VALUE,
        raw_ok(v),
    ensures
        entries_inv(s.update(l, (key, v))),
        slot_holds(s.update(l, (key, v)), key, l),
        is_live(v) ==> entries_view(s.update(l, (key, v)), att) == entries_view(s, att).insert(
            key,
            (strip(v), att.payload(l)),
        ),
        !is_live(v) ==> entries_view(s.update(l, (key, v)), att) == entries_view(s, att).remove(key),
{
    let s1 = s.update(l, (key, v));
    let cap = s.len() as int;
    lemma_slot_unique(s, key, l);
    assert forall|i: int| 0 <= i < s1.len() && (#[trigger] s1[i]).0 != EMPTY_KEY implies path_filled(
        s1,
        home(s1[i].0, cap),
        dist(home(s1[i].0, cap), i, cap),
    ) by {
        assert(s[i].0 == s1[i].0);
        let h = home(s[i].0, cap);
        assert(path_filled(s, h, dist(h, i, cap)));
        assert forall|t: int| 0 <= t < dist(h, i, cap) implies s1[#[trigger] probe(h, t, cap)].0
            != EMPTY_KEY by {
            assert(s1[probe(h, t, cap)].0 == s[probe(h, t, cap)].0);
        }
    }
    assert forall|i: int, j: int|
        0 <= i < s1.len() && 0 <= j < s1.len() && i != j && (#[trigger] s1[i]).0 == (
        #[trigger] s1[j]).0 && s1[i].0 != EMPTY_KEY implies s1[i].1 == EMPTY_VALUE || s1[j].1
        == EMPTY_VALUE by {
        assert(s[i].0 == s[j].0);
    }
    assert(entries_inv(s1));
    assert(slot_holds(s1, key, l));
    lemma_slot_unique(s1, key, l);
    assert forall|k: usize| k != key implies (has_live(s1, k) == has_live(s, k) && (has_live(s, k)
        ==> slot_of(s1, k) == slot_of(s, k) && s1[slot_of(s, k)] == s[slot_of(s, k)])) by {
        if has_slot(s, k) {
            let j = slot_of(s, k);
            assert(slot_holds(s, k, j));
            assert(slot_holds(s1, k, j));
            lemma_slot_unique(s1, k, j);
        }
        if has_slot(s1, k) {
            let j = slot_of(s1, k);
            assert(slot_holds(s1, k, j));
            assert(slot_holds(s, k, j));
            lemma_slot_unique(s, k, j);
        }
    }
    if is_live(v) {
        assert(entries_view(s1, att) =~= entries_view(s, att).insert(key, (strip(v), att.payload(l))));
    } else {
        assert(entries_view(s1, att) =~= entries_view(s, att).remove(key));
    }
}

} // verus!
