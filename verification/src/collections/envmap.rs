//! Eventually consistent map with producers: every writer has a producer of
//! its own, in which its writes wait until a refresh moves them into the map.

use crate::collections::lflist::{ObjectList, Slot};
use crate::lfmap::{KeyedMap, ObjectMap, EMPTY_KEY, MAX_CAPACITY};
use vstd::prelude::*;

verus! {

/// Capacity that the map starts with.
pub const INITIAL_CAPACITY: usize = 512;

/// A write: key and value.
pub type Write<V> = (usize, V);

/// The map that applying the writes `writes` in their order makes of `m`.
pub open spec fn apply_writes<V>(m: Map<usize, V>, writes: Seq<Slot<Write<V>>>) -> Map<usize, V>
    decreases writes.len(),
{
    if writes.len() == 0 {
        m
    } else {
        apply_writes(m, writes.drop_last()).insert(writes.last().1.0, writes.last().1.1)
    }
}

/// The writes of one writer that wait for a refresh.
pub struct Producer<V> {
    id: usize,
    cache: ObjectList<Write<V>>,
}

impl<V: Copy> Producer<V> {
    /// The number under which the map knows the producer.
    pub closed spec fn spec_id(&self) -> usize {
        self.id
    }

    /// The writes that wait, oldest first.
    pub closed spec fn view(&self) -> Seq<Write<V>> {
        self.cache@
    }

    /// The writes in the order in which a refresh applies them: oldest first.
    pub closed spec fn drained(&self) -> Seq<Slot<Write<V>>> {
        self.cache.slots()
    }

    /// The producer is consistent, and none of its writes is to the key that
    /// no map holds.
    pub closed spec fn wf(&self) -> bool {
        &&& self.cache.wf()
        &&& forall|i: int|
            0 <= i < self.cache.slots().len() ==> (#[trigger] self.cache.slots()[i]).1.0 != EMPTY_KEY
    }

    /// A refresh applies the waiting writes in the order in which they were
    /// made.
    pub proof fn lemma_drained_order(&self)
        ensures
            self.drained().len() == self@.len(),
            self.drained().map_values(|s: Slot<Write<V>>| s.1) == self@,
            forall|i: int| 0 <= i < self@.len() ==> (#[trigger] self.drained()[i]).1 == self@[i],
    {
        self.cache.lemma_slots();
        assert(self.drained().map_values(|s: Slot<Write<V>>| s.1) =~= self@);
    }

    /// A refresh applies as many writes as wait, each of them to a key that
    /// the map can hold.
    pub proof fn lemma_drained(&self)
        requires
            self.wf(),
        ensures
            self.drained().len() == self@.len(),
            forall|i: int| 0 <= i < self.drained().len() ==> (#[trigger] self.drained()[i]).1.0 != EMPTY_KEY,
    {
        self.lemma_drained_order();
    }

    /// The number under which the map knows the producer.
    pub fn id(&self) -> (r: usize)
        ensures
            r == self.spec_id(),
    {
        self.id
    }

    /// Leaves the write of `value` to `key` with the producer.
    pub fn insert(&mut self, key: usize, value: V)
        requires
            old(self).wf(),
            key != EMPTY_KEY,
            old(self)@.len() < usize::MAX,
        ensures
            final(self).wf(),
            final(self).spec_id() == old(self).spec_id(),
            final(self)@ == old(self)@.push((key, value)),
    {
        self.cache.push((key, value));
    }
}

/// The writes that a refresh applies from the first `j` of `producers`:
/// producer after producer, each from its oldest write to its newest, and
/// none from a producer that is not registered.
pub open spec fn refresh_writes<V: Copy>(
    producers: Seq<Producer<V>>,
    registered: Seq<bool>,
    j: int,
) -> Seq<Slot<Write<V>>>
    decreases j,
{
    if j <= 0 {
        Seq::empty()
    } else if is_registered(registered, producers[j - 1].spec_id()) {
        refresh_writes(producers, registered, j - 1) + producers[j - 1].drained()
    } else {
        refresh_writes(producers, registered, j - 1)
    }
}

/// The producer with the number `id` is registered.
pub open spec fn is_registered(registered: Seq<bool>, id: usize) -> bool {
    id < registered.len() && registered[id as int]
}

/// The map with its register of producers.
pub struct EnvMap<V: Copy> {
    map: ObjectMap<V>,
    producers: Vec<bool>,
    counter: usize,
}

impl<V: Copy> EnvMap<V> {
    /// The map and its register are consistent.
    pub closed spec fn wf(&self) -> bool {
        &&& self.map.wf()
        &&& self.counter == self.producers@.len()
    }

    /// The keys with their values, as far as the writes have been applied.
    pub closed spec fn contents(&self) -> Map<usize, V> {
        self.map.contents()
    }

    /// The number of keys.
    pub closed spec fn spec_len(&self) -> nat {
        self.map.spec_len()
    }

    /// For each number that a producer was given, whether the producer is
    /// still registered.
    pub closed spec fn registered(&self) -> Seq<bool> {
        self.producers@
    }

    /// A map with no key and no producer.
    pub fn new() -> (r: Self)
        ensures
            r.wf(),
            r.contents() == Map::<usize, V>::empty(),
            r.spec_len() == 0,
            r.registered() == Seq::<bool>::empty(),
    {
        proof {
            crate::lfmap::lemma_capacity_pow2(INITIAL_CAPACITY);
        }
        Self { map: ObjectMap::with_capacity(INITIAL_CAPACITY), producers: Vec::new(), counter: 0 }
    }

    /// A producer with the next number, registered with the map; or nothing
    /// where the numbers have run out.
    pub fn new_producer(&mut self) -> (r: Option<Producer<V>>)
        requires
            old(self).wf(),
        ensures
            final(self).wf(),
            final(self).contents() == old(self).contents(),
            final(self).spec_len() == old(self).spec_len(),
            old(self).registered().len() < usize::MAX ==> r is Some && final(self).registered() == old(self).registered().push(true),
            old(self).registered().len() == usize::MAX ==> r is None && final(self).registered()
                == old(self).registered(),
            r matches Some(producer) ==> producer.wf() && producer@ == Seq::<Write<V>>::empty()
                && producer.spec_id() == old(self).registered().len(),
    {
        if self.counter == usize::MAX {
            return None;
        }
        let id: usize = self.counter;
        self.counter = id + 1;
        self.producers.push(true);
        let producer = Producer { id, cache: ObjectList::new() };
        proof {
            producer.cache.lemma_slots();
        }
        Some(producer)
    }

    /// Takes `producer` off the register: a refresh leaves its writes alone
    /// from now on.
    pub fn remove_producer(&mut self, producer: &Producer<V>)
        requires
            old(self).wf(),
        ensures
            final(self).wf(),
            final(self).contents() == old(self).contents(),
            final(self).spec_len() == old(self).spec_len(),
            final(self).registered() == (if producer.spec_id() < old(self).registered().len() {
                old(self).registered().update(producer.spec_id() as int, false)
            } else {
                old(self).registered()
            }),
    {
        if producer.id < self.producers.len() {
            self.producers.set(producer.id, false);
        }
    }

    /// Moves the writes that wait with the registered ones among `producers`
    /// into the map, producer after producer and each from its oldest write
    /// to its newest, so that the last write to a key wins.
    pub fn refresh(&mut self, producers: &mut Vec<Producer<V>>)
        requires
            old(self).wf(),
            forall|i: int| 0 <= i < old(producers)@.len() ==> (#[trigger] old(producers)@[i]).wf(),
            old(self).spec_len() + refresh_writes(
                old(producers)@,
                old(self).registered(),
                old(producers)@.len() as int,
            ).len() <= MAX_CAPACITY,
        ensures
            final(self).wf(),
            final(self).registered() == old(self).registered(),
            final(self).contents() == apply_writes(
                old(self).contents(),
                refresh_writes(old(producers)@, old(self).registered(), old(producers)@.len() as int),
            ),
            final(producers)@.len() == old(producers)@.len(),
            forall|i: int|
                0 <= i < old(producers)@.len() ==> {
                    &&& (#[trigger] final(producers)@[i]).wf()
                    &&& final(producers)@[i].spec_id() == old(producers)@[i].spec_id()
                    &&& final(producers)@[i]@ == (if is_registered(
                        old(self).registered(),
                        old(producers)@[i].spec_id(),
                    ) {
                        Seq::<Write<V>>::empty()
                    } else {
                        old(producers)@[i]@
                    })
                },
    {
        let ghost before = old(producers)@;
        let ghost books = self.producers@;
        let ghost map0 = self.map.contents();
        let ghost all = refresh_writes(before, books, before.len() as int);
        let n: usize = producers.len();
        let mut b: usize = 0;
        while b < n
            invariant
                0 <= b <= n,
                n == before.len(),
                producers@.len() == n,
                before == old(producers)@,
                books == old(self).producers@,
                self.producers@ == books,
                self.counter == old(self).counter,
                self.map.wf(),
                old(self).wf(),
                map0 == old(self).map.contents(),
                all == refresh_writes(before, books, n as int),
                old(self).spec_len() + all.len() <= MAX_CAPACITY,
                forall|i: int| 0 <= i < n ==> (#[trigger] before[i]).wf(),
                forall|i: int| b <= i < n ==> producers@[i] == before[i],
                forall|i: int|
                    0 <= i < b ==> {
                        &&& (#[trigger] producers@[i]).wf()
                        &&& producers@[i].spec_id() == before[i].spec_id()
                        &&& producers@[i]@ == (if is_registered(books, before[i].spec_id()) {
                            Seq::<Write<V>>::empty()
                        } else {
                            before[i]@
                        })
                    },
                self.map.contents() == apply_writes(map0, refresh_writes(before, books, b as int)),
                self.map.spec_len() <= old(self).spec_len() + refresh_writes(
                    before,
                    books,
                    b as int,
                ).len(),
            decreases n - b,
        {
            let id: usize = producers[b].id;
            let ghost applied = refresh_writes(before, books, b as int);
            proof {
                lemma_refresh_writes_grow(before, books, b as int + 1, n as int);
            }
            if id < self.producers.len() && self.producers[id] {
                let ghost drained = before[b as int].drained();
                proof {
                    before[b as int].lemma_drained();
                }
                let items = producers[b].cache.drain_in_order();
                proof {
                    producers@[b as int].cache.lemma_slots();
                }
                let mut i: usize = 0;
                while i < items.len()
                    invariant
                        0 <= i <= items@.len(),
                        items@ == drained,
                        forall|k: int| 0 <= k < drained.len() ==> (#[trigger] drained[k]).1.0 != EMPTY_KEY,
                        self.map.wf(),
                        self.producers@ == books,
                        self.counter == old(self).counter,
                        self.map.spec_len() <= old(self).spec_len() + applied.len() + i,
                        old(self).spec_len() + applied.len() + drained.len() <= MAX_CAPACITY,
                        self.map.contents() == apply_writes(map0, applied + drained.take(i as int)),
                    decreases items@.len() - i,
                {
                    let write: Write<V> = items[i].1;
                    proof {
                        let grown = applied + drained.take(i as int + 1);
                        assert(grown.drop_last() =~= applied + drained.take(i as int));
                        assert(grown.last() == drained[i as int]);
                    }
                    self.map.insert(write.0, write.1);
                    i = i + 1;
                }
                proof {
                    assert(drained.take(drained.len() as int) =~= drained);
                }
            } else {
                proof {
                    assert(producers@[b as int] == before[b as int]);
                }
            }
            b = b + 1;
        }
    }

    /// Maps `key` to `value`; the result tells whether `key` had a value.
    pub fn insert(&mut self, key: usize, value: V) -> (r: Option<()>)
        requires
            old(self).wf(),
            key != EMPTY_KEY,
            old(self).spec_len() < MAX_CAPACITY,
        ensures
            final(self).wf(),
            final(self).registered() == old(self).registered(),
            final(self).contents() == old(self).contents().insert(key, value),
            (r is Some) == old(self).contents().contains_key(key),
            final(self).spec_len() == old(self).spec_len() + (if old(self).contents().contains_key(
                key,
            ) {
                0nat
            } else {
                1nat
            }),
    {
        self.map.insert(key, value)
    }

    /// The value of `key`.
    pub fn get(&self, key: usize) -> (r: Option<V>)
        requires
            self.wf(),
        ensures
            r == (if self.contents().contains_key(key) {
                Some(self.contents()[key])
            } else {
                None
            }),
    {
        self.map.get(key)
    }

    /// Takes `key` out and returns the value that it had.
    pub fn remove(&mut self, key: usize) -> (r: Option<V>)
        requires
            old(self).wf(),
        ensures
            final(self).wf(),
            final(self).registered() == old(self).registered(),
            final(self).contents() == old(self).contents().remove(key),
            r == (if old(self).contents().contains_key(key) {
                Some(old(self).contents()[key])
            } else {
                None
            }),
            final(self).spec_len() == old(self).spec_len() - (if old(self).contents().contains_key(
                key,
            ) {
                1nat
            } else {
                0nat
            }),
    {
        self.map.remove(key)
    }
}

/// The writes of more producers are no fewer.
proof fn lemma_refresh_writes_grow<V: Copy>(
    producers: Seq<Producer<V>>,
    registered: Seq<bool>,
    a: int,
    b: int,
)
    requires
        0 <= a <= b,
    ensures
        refresh_writes(producers, registered, a).len() <= refresh_writes(producers, registered, b).len(),
    decreases b - a,
{
    if a < b {
        lemma_refresh_writes_grow(producers, registered, a, b - 1);
    }
}

} // verus!
