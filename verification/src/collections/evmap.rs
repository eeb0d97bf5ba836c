//! Eventually consistent map: writers leave their pairs in the shard of
//! their processor, and a refresh drains the shards into the authoritative
//! map.

use crate::collections::lflist::{ObjectList, Slot};
use crate::lfmap::{storable, KeyedMap, WordMap, EMPTY_KEY, MAX_CAPACITY};
use crate::utils::upper_power_of_2;
use vstd::prelude::*;

verus! {

/// Most shards that one node gets.
pub const MAX_BINS: usize = 16;

/// Slots per buffer of a shard.
pub const BIN_BUFFER_CAP: usize = 8;

/// Capacity that the authoritative map starts with.
pub const INITIAL_CAPACITY: usize = 256;

/// A write: key and value.
pub type Pair = (usize, usize);

/// A write that the authoritative map accepts.
pub open spec fn pair_ok(p: Pair) -> bool {
    p.0 != EMPTY_KEY && storable(p.1)
}

/// The map that applying the writes `pairs` in their order makes of `m`.
pub open spec fn apply_pairs(m: Map<usize, usize>, pairs: Seq<Slot<Pair>>) -> Map<usize, usize>
    decreases pairs.len(),
{
    if pairs.len() == 0 {
        m
    } else {
        apply_pairs(m, pairs.drop_last()).insert(pairs.last().1.0, pairs.last().1.1)
    }
}

/// The value of the last write to `lookup` among `pairs`, or 0 where there is
/// none.
pub open spec fn found_in(pairs: Seq<Slot<Pair>>, lookup: usize) -> usize
    decreases pairs.len(),
{
    if pairs.len() == 0 {
        0
    } else if pairs.last().1.0 == lookup {
        pairs.last().1.1
    } else {
        found_in(pairs.drop_last(), lookup)
    }
}

/// The number of shards of a node with `cpus` processors: the next power of
/// two, at most `MAX_BINS`.
pub open spec fn shard_count(cpus: usize) -> usize {
    if cpus >= MAX_BINS {
        MAX_BINS
    } else if cpus == 0 {
        1
    } else {
        crate::utils::next_pow2(cpus as nat) as usize
    }
}

/// One shard: the writes of the processors that map to it.
pub struct EvBin {
    list: ObjectList<Pair>,
}

impl EvBin {
    /// The shard is consistent and holds only writes that the map accepts.
    pub closed spec fn wf(&self) -> bool {
        &&& self.list.wf()
        &&& forall|i: int|
            0 <= i < self.list.slots().len() ==> pair_ok((#[trigger] self.list.slots()[i]).1)
    }

    /// The writes that wait in the shard, oldest first.
    pub closed spec fn view(&self) -> Seq<Pair> {
        self.list@
    }

    /// The writes in the order in which a refresh applies them: oldest first.
    pub closed spec fn drained(&self) -> Seq<Slot<Pair>> {
        self.list.slots()
    }

    /// A refresh applies the waiting writes in the order in which they were
    /// made.
    pub proof fn lemma_drained_order(&self)
        ensures
            self.drained().len() == self@.len(),
            self.drained().map_values(|s: Slot<Pair>| s.1) == self@,
            forall|i: int| 0 <= i < self@.len() ==> (#[trigger] self.drained()[i]).1 == self@[i],
    {
        self.list.lemma_slots();
        assert(self.drained().map_values(|s: Slot<Pair>| s.1) =~= self@);
    }

    /// A refresh applies every waiting write once, and each is one that the
    /// map accepts.
    pub proof fn lemma_drained(&self)
        requires
            self.wf(),
        ensures
            self.drained().len() == self@.len(),
            forall|i: int| 0 <= i < self.drained().len() ==> pair_ok((#[trigger] self.drained()[i]).1),
            self.drained().map_values(|s: Slot<Pair>| s.1).to_multiset() == self@.to_multiset(),
    {
        self.lemma_drained_order();
    }

    /// Every write that a refresh applies waits in the shard.
    pub proof fn lemma_drained_member(&self, i: int)
        requires
            self.wf(),
            0 <= i < self.drained().len(),
        ensures
            exists|j: int| 0 <= j < self@.len() && self@[j] == self.drained()[i].1,
    {
        self.lemma_drained_order();
        assert(self@[i] == self.drained()[i].1);
    }

    /// Every write that waits in the shard is applied by a refresh.
    pub proof fn lemma_view_member(&self, j: int)
        requires
            self.wf(),
            0 <= j < self@.len(),
        ensures
            exists|i: int| 0 <= i < self.drained().len() && self.drained()[i].1 == self@[j],
    {
        self.lemma_drained_order();
        assert(self.drained()[j].1 == self@[j]);
    }

    /// An empty shard.
    pub fn new() -> (r: Self)
        ensures
            r.wf(),
            r@ == Seq::<Pair>::empty(),
    {
        let r = Self { list: ObjectList::with_capacity(BIN_BUFFER_CAP) };
        proof {
            r.list.lemma_slots();
        }
        r
    }

    /// Leaves the write of `value` to `key` in the shard.
    pub fn push(&mut self, key: usize, value: usize)
        requires
            old(self).wf(),
            pair_ok((key, value)),
            old(self)@.len() < usize::MAX,
        ensures
            final(self).wf(),
            final(self)@ == old(self)@.push((key, value)),
    {
        self.list.push((key, value));
    }
}

/// The shards of one node: `cpu_mask + 1` of them, from `first` on.
pub struct NumaBin {
    first: usize,
    cpu_mask: u16,
}

/// The writes that a refresh looking for `lookup` applies from the first `j`
/// shards: shard after shard, each from its oldest write to its newest, and
/// none after a shard that held a write to `lookup`.
pub open spec fn refresh_sequence(bins: Seq<EvBin>, j: int, lookup: usize) -> Seq<Slot<Pair>>
    decreases j,
{
    if j <= 0 {
        Seq::empty()
    } else {
        let before = refresh_sequence(bins, j - 1, lookup);
        if found_in(before, lookup) != 0 {
            before
        } else {
            before + bins[j - 1].drained()
        }
    }
}

/// The number of writes that wait in the first `j` shards.
pub open spec fn pending_upto(bins: Seq<EvBin>, j: int) -> nat
    decreases j,
{
    if j <= 0 {
        0
    } else {
        pending_upto(bins, j - 1) + bins[j - 1]@.len()
    }
}

/// The sharded map.
pub struct EvMap {
    map: WordMap,
    bins: Vec<EvBin>,
    source: Vec<NumaBin>,
    pending: usize,
}

impl EvMap {
    /// The map and the shards are consistent, every node has its shards, and
    /// the keys and the waiting writes together are no more than the
    /// authoritative map can hold.
    pub closed spec fn wf(&self) -> bool {
        &&& self.map.wf()
        &&& forall|b: int| 0 <= b < self.bins@.len() ==> (#[trigger] self.bins@[b]).wf()
        &&& forall|n: int|
            0 <= n < self.source@.len() ==> (#[trigger] self.source@[n]).first
                + self.source@[n].cpu_mask < self.bins@.len()
        &&& self.pending == pending_upto(self.bins@, self.bins@.len() as int)
        &&& self.map.spec_len() + self.pending <= MAX_CAPACITY
    }

    /// The authoritative map.
    pub closed spec fn contents(&self) -> Map<usize, usize> {
        self.map.contents()
    }

    /// The shards, node after node.
    pub closed spec fn shards(&self) -> Seq<EvBin> {
        self.bins@
    }

    /// The number of nodes.
    pub closed spec fn spec_nodes(&self) -> nat {
        self.source@.len()
    }

    /// The number of shards that node `numa` keeps.
    pub closed spec fn node_shards(&self, numa: int) -> int {
        self.source@[numa].cpu_mask + 1
    }

    /// The index among `shards` of the shard that node `numa_id` keeps for
    /// processor `cpu_id`.
    pub closed spec fn shard_index(&self, numa_id: u16, cpu_id: u16) -> int {
        self.source@[numa_id as int].first + (cpu_id & self.source@[numa_id as int].cpu_mask)
    }

    /// The shards of a consistent map are consistent.
    pub proof fn lemma_shards_wf(&self)
        requires
            self.wf(),
        ensures
            forall|b: int| 0 <= b < self.shards().len() ==> (#[trigger] self.shards()[b]).wf(),
    {
    }

    /// The write `p` waits in some shard.
    pub closed spec fn pending_pair(&self, p: Pair) -> bool {
        exists|b: int, j: int|
            0 <= b < self.bins@.len() && 0 <= j < self.bins@[b]@.len() && #[trigger] self.bins@[b]@[j]
                == p
    }

    /// The map knows the pair `p`: it stands in the authoritative map, or
    /// waits in some shard.
    pub open spec fn knows(&self, p: Pair) -> bool {
        (self.contents().contains_key(p.0) && self.contents()[p.0] == p.1) || self.pending_pair(p)
    }

    /// The number of keys of the authoritative map and of waiting writes
    /// together.
    pub closed spec fn spec_load(&self) -> nat {
        self.map.spec_len() + self.pending as nat
    }

    /// The keys and writes together, which may not exceed `MAX_CAPACITY`.
    pub fn load(&self) -> (r: usize)
        requires
            self.wf(),
        ensures
            r == self.spec_load(),
            r <= MAX_CAPACITY,
    {
        self.map.len() + self.pending
    }

    /// A map for nodes with the given numbers of processors.
    pub fn new(node_cpus: &Vec<usize>) -> (r: Self)
        ensures
            r.wf(),
            r.contents() == Map::<usize, usize>::empty(),
            r.spec_nodes() == node_cpus@.len(),
            r.spec_load() == 0,
            forall|b: int| 0 <= b < r.shards().len() ==> (#[trigger] r.shards()[b])@.len() == 0,
            forall|p: Pair| !r.pending_pair(p),
            forall|n: int|
                0 <= n < node_cpus@.len() ==> #[trigger] r.node_shards(n) == shard_count(node_cpus@[n]),
    {
        let mut bins: Vec<EvBin> = Vec::new();
        let mut source: Vec<NumaBin> = Vec::new();
        let mut i: usize = 0;
        while i < node_cpus.len()
            invariant
                0 <= i <= node_cpus@.len(),
                source@.len() == i,
                bins@.len() <= i * MAX_BINS,
                forall|b: int|
                    0 <= b < bins@.len() ==> (#[trigger] bins@[b]).wf() && bins@[b]@.len() == 0,
                forall|n: int|
                    0 <= n < source@.len() ==> (#[trigger] source@[n]).first + source@[n].cpu_mask
                        < bins@.len(),
                forall|n: int|
                    0 <= n < source@.len() ==> (#[trigger] source@[n]).cpu_mask + 1 == shard_count(
                        node_cpus@[n],
                    ),
            decreases node_cpus@.len() - i,
        {
            let cpus: usize = node_cpus[i];
            let cpu_slots: usize = if cpus >= MAX_BINS {
                MAX_BINS
            } else if cpus == 0 {
                1
            } else {
                proof {
                    reveal_with_fuel(crate::utils::is_pow2, 6);
                    crate::utils::lemma_next_pow2_bound(cpus as nat, MAX_BINS as nat);
                    crate::utils::lemma_next_pow2(cpus as nat);
                }
                upper_power_of_2(cpus)
            };
            let first: usize = bins.len();
            let mut j: usize = 0;
            while j < cpu_slots
                invariant
                    0 <= j <= cpu_slots <= MAX_BINS,
                    1 <= cpu_slots,
                    bins@.len() == first + j,
                    first <= i * MAX_BINS,
                    i < node_cpus@.len(),
                    forall|b: int|
                        0 <= b < bins@.len() ==> (#[trigger] bins@[b]).wf() && bins@[b]@.len()
                            == 0,
                decreases cpu_slots - j,
            {
                bins.push(EvBin::new());
                j = j + 1;
            }
            source.push(NumaBin { first, cpu_mask: (cpu_slots - 1) as u16 });
            i = i + 1;
        }
        proof {
            lemma_pending_empty(bins@, bins@.len() as int);
            crate::lfmap::lemma_capacity_pow2(INITIAL_CAPACITY);
        }
        Self { map: WordMap::with_capacity(INITIAL_CAPACITY), bins, source, pending: 0 }
    }

    /// Leaves the write of `value` to `key` in the shard that node `numa_id`
    /// keeps for processor `cpu_id`.
    pub fn insert_to_cpu(&mut self, key: usize, value: usize, numa_id: u16, cpu_id: u16)
        requires
            old(self).wf(),
            numa_id < old(self).spec_nodes(),
            pair_ok((key, value)),
            old(self).spec_load() < MAX_CAPACITY,
        ensures
            final(self).wf(),
            final(self).contents() == old(self).contents(),
            final(self).spec_nodes() == old(self).spec_nodes(),
            forall|n: u16, c: u16| #[trigger] final(self).shard_index(n, c) == old(self).shard_index(n, c),
            forall|n: int| #[trigger] final(self).node_shards(n) == old(self).node_shards(n),
            final(self).spec_load() == old(self).spec_load() + 1,
            final(self).shards().len() == old(self).shards().len(),
            0 <= old(self).shard_index(numa_id, cpu_id) < old(self).shards().len(),
            forall|b: int|
                0 <= b < old(self).shards().len() && b != old(self).shard_index(numa_id, cpu_id)
                    ==> final(self).shards()[b] == old(self).shards()[b],
            final(self).shards()[old(self).shard_index(numa_id, cpu_id)]@ == old(self).shards()[old(self).shard_index(numa_id, cpu_id)]@.push((key, value)),
            forall|p: Pair| final(self).pending_pair(p) == (old(self).pending_pair(p) || p == (key, value)),
    {
        let first: usize = self.source[numa_id as usize].first;
        let mask: u16 = self.source[numa_id as usize].cpu_mask;
        let slot: u16 = cpu_id & mask;
        assert(slot <= mask) by (bit_vector)
            requires
                slot == cpu_id & mask,
        ;
        assert(self.source@[numa_id as int].first + mask < self.bins@.len());
        let wide: usize = slot as usize;
        let shards: usize = self.bins.len();
        assert(first + wide < shards);
        let index: usize = first + wide;
        proof {
            lemma_pending_bound(self.bins@, index as int, self.bins@.len() as int);
        }
        let ghost before = self.bins@;
        self.bins[index].push(key, value);
        self.pending = self.pending + 1;
        proof {
            lemma_pending_update(before, self.bins@, index as int, self.bins@.len() as int);
            let after = self.bins@;
            assert forall|p: Pair| self.pending_pair(p) == (old(self).pending_pair(p) || p == (
                key,
                value,
            )) by {
                if old(self).pending_pair(p) {
                    let (b, j) = choose|b: int, j: int|
                        0 <= b < before.len() && 0 <= j < before[b]@.len() && #[trigger] before[b]@[j]
                            == p;
                    assert(after[b]@[j] == p);
                }
                if p == (key, value) {
                    assert(after[index as int]@[before[index as int]@.len() as int] == p);
                }
                if self.pending_pair(p) {
                    let (b, j) = choose|b: int, j: int|
                        0 <= b < after.len() && 0 <= j < after[b]@.len() && #[trigger] after[b]@[j]
                            == p;
                    if b == index && j == before[index as int]@.len() {
                    } else {
                        assert(before[b]@[j] == p);
                    }
                }
            }
        }
    }

    /// Drains the shards into the authoritative map, shard after shard and
    /// each from its oldest write to its newest, so that the last write to a
    /// key wins.  It stops behind the first shard that held a write to
    /// `lookup`, and returns the value of the last such write.  With a
    /// `lookup` that no write names (0 is none's key) every shard is
    /// drained.
    pub fn refresh(&mut self, lookup: usize) -> (r: Option<usize>)
        requires
            old(self).wf(),
        ensures
            final(self).wf(),
            final(self).spec_nodes() == old(self).spec_nodes(),
            forall|n: u16, c: u16| #[trigger] final(self).shard_index(n, c) == old(self).shard_index(n, c),
            forall|n: int| #[trigger] final(self).node_shards(n) == old(self).node_shards(n),
            final(self).shards().len() == old(self).shards().len(),
            final(self).contents() == apply_pairs(
                old(self).contents(),
                refresh_sequence(old(self).shards(), old(self).shards().len() as int, lookup),
            ),
            r == (if found_in(
                refresh_sequence(old(self).shards(), old(self).shards().len() as int, lookup),
                lookup,
            ) != 0 {
                Some(
                    found_in(
                        refresh_sequence(old(self).shards(), old(self).shards().len() as int, lookup),
                        lookup,
                    ),
                )
            } else {
                None
            }),
            forall|b: int|
                0 <= b < old(self).shards().len() ==> (#[trigger] final(self).shards()[b])@ == (
                if found_in(refresh_sequence(old(self).shards(), b, lookup), lookup) == 0 {
                    Seq::<Pair>::empty()
                } else {
                    old(self).shards()[b]@
                }),
            lookup == 0 ==> final(self).refreshed(*old(self)),
            final(self).spec_load() <= old(self).spec_load(),
    {
        let ghost bins0 = self.bins@;
        let ghost map0 = self.map.contents();
        let ghost load0 = self.spec_load();
        let mut lookup_res: usize = 0;
        let mut b: usize = 0;
        let n: usize = self.bins.len();
        while b < n && lookup_res == 0
            invariant
                0 <= b <= n,
                n == bins0.len(),
                self.bins@.len() == n,
                bins0 == old(self).bins@,
                map0 == old(self).map.contents(),
                self.source == old(self).source,
                self.wf(),
                load0 == old(self).spec_load(),
                self.spec_load() <= load0,
                forall|c: int| b <= c < n ==> self.bins@[c] == bins0[c],
                forall|c: int|
                    0 <= c < b ==> (#[trigger] self.bins@[c])@ == (if found_in(
                        refresh_sequence(bins0, c, lookup),
                        lookup,
                    ) == 0 {
                        Seq::<Pair>::empty()
                    } else {
                        bins0[c]@
                    }),
                forall|c: int|
                    #![trigger refresh_sequence(bins0, c, lookup)]
                    0 <= c < b ==> found_in(refresh_sequence(bins0, c, lookup), lookup) == 0,
                self.map.contents() == apply_pairs(map0, refresh_sequence(bins0, b as int, lookup)),
                lookup_res == found_in(refresh_sequence(bins0, b as int, lookup), lookup),
            decreases n - b,
        {
            let ghost seq_before = refresh_sequence(bins0, b as int, lookup);
            let ghost drained = bins0[b as int].drained();
            let ghost bins_before = self.bins@;
            proof {
                lemma_pending_bound(self.bins@, b as int, n as int);
                bins0[b as int].lemma_drained();
            }
            let items = self.bins[b].list.drain_in_order();
            proof {
                self.bins@[b as int].list.lemma_slots();
                lemma_pending_update(bins_before, self.bins@, b as int, n as int);
            }
            self.pending = self.pending - items.len();
            let mut i: usize = 0;
            while i < items.len()
                invariant
                    0 <= i <= items@.len(),
                    items@ == drained,
                    forall|k: int| 0 <= k < drained.len() ==> pair_ok((#[trigger] drained[k]).1),
                    self.map.wf(),
                    self.map.spec_len() + self.pending + (items@.len() - i) <= MAX_CAPACITY,
                    self.map.spec_len() + self.pending + (items@.len() - i) <= load0,
                    self.map.contents() == apply_pairs(map0, seq_before + drained.take(i as int)),
                    lookup_res == found_in(seq_before + drained.take(i as int), lookup),
                    self.bins@.len() == n,
                    self.source == old(self).source,
                    forall|c: int| 0 <= c < n ==> (#[trigger] self.bins@[c]).wf(),
                    forall|c: int| b < c < n ==> self.bins@[c] == bins0[c],
                    self.bins@[b as int]@ == Seq::<Pair>::empty(),
                    forall|c: int|
                        0 <= c < b ==> (#[trigger] self.bins@[c])@ == (if found_in(
                            refresh_sequence(bins0, c, lookup),
                            lookup,
                        ) == 0 {
                            Seq::<Pair>::empty()
                        } else {
                            bins0[c]@
                        }),
                    self.pending == pending_upto(self.bins@, n as int),
                decreases items@.len() - i,
            {
                let pair: Pair = items[i].1;
                proof {
                    let grown = seq_before + drained.take(i as int + 1);
                    assert(grown.drop_last() =~= seq_before + drained.take(i as int));
                    assert(grown.last() == drained[i as int]);
                }
                if lookup == pair.0 {
                    lookup_res = pair.1;
                }
                self.map.insert(pair.0, pair.1);
                i = i + 1;
            }
            proof {
                assert(drained.take(drained.len() as int) =~= drained);
                assert(seq_before + Seq::<Slot<Pair>>::empty() =~= seq_before);
            }
            b = b + 1;
        }
        proof {
            lemma_refresh_sequence_stops(bins0, b as int, n as int, lookup);
            assert forall|c: int| 0 <= c < n implies (#[trigger] self.bins@[c])@ == (if found_in(
                refresh_sequence(bins0, c, lookup),
                lookup,
            ) == 0 {
                Seq::<Pair>::empty()
            } else {
                bins0[c]@
            }) by {
                if c >= b {
                    lemma_refresh_sequence_stops(bins0, b as int, c, lookup);
                }
            }
        }
        proof {
            if lookup == 0 {
                old(self).lemma_refreshed(*self);
            }
        }
        if lookup_res != 0 {
            Some(lookup_res)
        } else {
            None
        }
    }

    /// What a refresh that looks for nothing makes of the map `before`: no
    /// write waits any more, every pair that the authoritative map holds was
    /// known before, and every key that was known before is in the
    /// authoritative map.
    pub open spec fn refreshed(&self, before: Self) -> bool {
        &&& forall|p: Pair| !self.pending_pair(p)
        &&& forall|p: Pair| #[trigger] self.knows(p) ==> before.knows(p)
        &&& forall|p: Pair| #[trigger] before.knows(p) ==> self.contents().contains_key(p.0)
    }

    proof fn lemma_refreshed(&self, after: Self)
        requires
            self.wf(),
            after.bins@.len() == self.bins@.len(),
            after.contents() == apply_pairs(
                self.contents(),
                refresh_sequence(self.bins@, self.bins@.len() as int, 0),
            ),
            forall|b: int|
                0 <= b < self.bins@.len() ==> (#[trigger] after.bins@[b])@ == (if found_in(
                    refresh_sequence(self.bins@, b, 0),
                    0,
                ) == 0 {
                    Seq::<Pair>::empty()
                } else {
                    self.bins@[b]@
                }),
        ensures
            after.refreshed(*self),
    {
        let bins = self.bins@;
        let n = bins.len() as int;
        let all = refresh_sequence(bins, n, 0);
        lemma_full_sequence(bins, n);
        assert forall|p: Pair| !after.pending_pair(p) by {
            if after.pending_pair(p) {
                let (b, j) = choose|b: int, j: int|
                    0 <= b < after.bins@.len() && 0 <= j < after.bins@[b]@.len()
                        && #[trigger] after.bins@[b]@[j] == p;
                lemma_full_sequence(bins, b);
            }
        }
        assert forall|p: Pair| #[trigger] after.knows(p) implies self.knows(p) by {
            lemma_apply_pairs_last(self.contents(), all, p.0);
            if found_in(all, p.0) != 0 {
                lemma_found_origin(all, p.0);
                let x = choose|x: int| 0 <= x < all.len() && all[x].1 == (p.0, found_in(all, p.0));
                lemma_sequence_origin(bins, n, x);
                let (b, i) = choose|b: int, i: int|
                    0 <= b < n && 0 <= i < bins[b].drained().len() && bins[b].drained()[i] == all[x];
                bins[b].lemma_drained_member(i);
                let j = choose|j: int| 0 <= j < bins[b]@.len() && bins[b]@[j] == bins[b].drained()[i].1;
                assert(bins[b]@[j] == p);
            }
        }
        assert forall|p: Pair| #[trigger] self.knows(p) implies after.contents().contains_key(
            p.0,
        ) by {
            lemma_apply_pairs_last(self.contents(), all, p.0);
            if self.pending_pair(p) {
                let (b, j) = choose|b: int, j: int|
                    0 <= b < bins.len() && 0 <= j < bins[b]@.len() && #[trigger] bins[b]@[j] == p;
                bins[b].lemma_view_member(j);
                let i = choose|i: int|
                    0 <= i < bins[b].drained().len() && bins[b].drained()[i].1 == bins[b]@[j];
                lemma_sequence_holds(bins, n, b, i);
            }
        }
    }

    /// Maps `key` to `value` in the authoritative map.
    pub fn insert(&mut self, key: usize, value: usize) -> (r: Option<()>)
        requires
            old(self).wf(),
            pair_ok((key, value)),
            old(self).spec_load() < MAX_CAPACITY,
        ensures
            final(self).wf(),
            final(self).contents() == old(self).contents().insert(key, value),
            (r is Some) == old(self).contents().contains_key(key),
            final(self).shards() == old(self).shards(),
            final(self).spec_nodes() == old(self).spec_nodes(),
            forall|n: u16, c: u16| #[trigger] final(self).shard_index(n, c) == old(self).shard_index(n, c),
            forall|n: int| #[trigger] final(self).node_shards(n) == old(self).node_shards(n),
            final(self).spec_load() <= old(self).spec_load() + 1,
    {
        self.map.insert(key, value)
    }

    /// The value of `key` in the authoritative map.
    pub fn get(&self, key: usize) -> (r: Option<usize>)
        requires
            self.wf(),
        ensures
            r == (if self.contents().contains_key(key) {
                Some(self.contents()[key])
            } else {
                None
            }),
    {
        self.map.get(key)
    }

    /// Takes `key` out of the authoritative map.
    pub fn remove(&mut self, key: usize) -> (r: Option<usize>)
        requires
            old(self).wf(),
        ensures
            final(self).wf(),
            final(self).contents() == old(self).contents().remove(key),
            r == (if old(self).contents().contains_key(key) {
                Some(old(self).contents()[key])
            } else {
                None
            }),
            final(self).shards() == old(self).shards(),
            final(self).spec_nodes() == old(self).spec_nodes(),
            forall|n: u16, c: u16| #[trigger] final(self).shard_index(n, c) == old(self).shard_index(n, c),
            forall|n: int| #[trigger] final(self).node_shards(n) == old(self).node_shards(n),
            final(self).spec_load() <= old(self).spec_load(),
    {
        self.map.remove(key)
    }

    /// Whether the authoritative map holds `key`.
    pub fn contains(&self, key: usize) -> (r: bool)
        requires
            self.wf(),
        ensures
            r == self.contents().contains_key(key),
    {
        self.map.get(key).is_some()
    }
}

proof fn lemma_pending_empty(bins: Seq<EvBin>, j: int)
    requires
        0 <= j <= bins.len(),
        forall|b: int| 0 <= b < bins.len() ==> (#[trigger] bins[b])@.len() == 0,
    ensures
        pending_upto(bins, j) == 0,
    decreases j,
{
    if j > 0 {
        lemma_pending_empty(bins, j - 1);
    }
}

proof fn lemma_pending_bound(bins: Seq<EvBin>, b: int, j: int)
    requires
        0 <= b < j <= bins.len(),
    ensures
        bins[b]@.len() <= pending_upto(bins, j),
    decreases j,
{
    if b < j - 1 {
        lemma_pending_bound(bins, b, j - 1);
    }
}

proof fn lemma_pending_update(before: Seq<EvBin>, after: Seq<EvBin>, b: int, j: int)
    requires
        before.len() == after.len(),
        0 <= b < before.len(),
        0 <= j <= before.len(),
        forall|c: int| 0 <= c < before.len() && c != b ==> before[c] == after[c],
    ensures
        pending_upto(after, j) == pending_upto(before, j) + (if b < j {
            after[b]@.len() - before[b]@.len()
        } else {
            0
        }),
    decreases j,
{
    if j > 0 {
        lemma_pending_update(before, after, b, j - 1);
    }
}

/// Behind a shard that held a write to `lookup` the sequence grows no more.
proof fn lemma_refresh_sequence_stops(bins: Seq<EvBin>, b: int, j: int, lookup: usize)
    requires
        0 <= b <= j,
        found_in(refresh_sequence(bins, b, lookup), lookup) != 0 || b == j,
    ensures
        refresh_sequence(bins, j, lookup) == refresh_sequence(bins, b, lookup),
    decreases j - b,
{
    if b < j {
        lemma_refresh_sequence_stops(bins, b, j - 1, lookup);
    }
}

/// Applying writes one after the other leaves each key with its last write,
/// and a key that no write names as it was.
pub proof fn lemma_apply_pairs_last(m: Map<usize, usize>, pairs: Seq<Slot<Pair>>, key: usize)
    requires
        forall|i: int| 0 <= i < pairs.len() ==> (#[trigger] pairs[i]).1.1 != 0,
    ensures
        found_in(pairs, key) != 0 ==> apply_pairs(m, pairs).contains_key(key) && apply_pairs(
            m,
            pairs,
        )[key] == found_in(pairs, key),
        found_in(pairs, key) == 0 ==> apply_pairs(m, pairs).contains_key(key) == m.contains_key(key)
            && (m.contains_key(key) ==> apply_pairs(m, pairs)[key] == m[key]),
    decreases pairs.len(),
{
    if pairs.len() > 0 {
        lemma_apply_pairs_last(m, pairs.drop_last(), key);
    }
}

/// A refresh that looks for nothing reflects every waiting write: a key that
/// some shard holds a write to is in the authoritative map afterwards, with
/// the value of the write that the refresh applied last.
pub proof fn lemma_refresh_reflects(m: Map<usize, usize>, bins: Seq<EvBin>, b: int, i: int)
    requires
        forall|c: int| 0 <= c < bins.len() ==> (#[trigger] bins[c]).wf(),
        0 <= b < bins.len(),
        0 <= i < bins[b].drained().len(),
    ensures
        ({
            let key = bins[b].drained()[i].1.0;
            let all = refresh_sequence(bins, bins.len() as int, 0);
            &&& apply_pairs(m, all).contains_key(key)
            &&& apply_pairs(m, all)[key] == found_in(all, key)
            &&& found_in(all, key) != 0
        }),
{
    let key = bins[b].drained()[i].1.0;
    let all = refresh_sequence(bins, bins.len() as int, 0);
    lemma_full_sequence(bins, bins.len() as int);
    lemma_sequence_holds(bins, bins.len() as int, b, i);
    lemma_apply_pairs_last(m, all, key);
}

/// The last write wins: where shard `b` holds a write to a key, no later
/// write of the shard is to that key and no later shard holds one, a refresh
/// that looks for nothing leaves the key with the value of that write.
pub proof fn lemma_last_write_wins(m: Map<usize, usize>, bins: Seq<EvBin>, b: int, j: int)
    requires
        forall|c: int| 0 <= c < bins.len() ==> (#[trigger] bins[c]).wf(),
        0 <= b < bins.len(),
        0 <= j < bins[b]@.len(),
        forall|l: int| j < l < bins[b]@.len() ==> (#[trigger] bins[b]@[l]).0 != bins[b]@[j].0,
        forall|c: int, l: int|
            b < c < bins.len() && 0 <= l < bins[c]@.len() ==> (#[trigger] bins[c]@[l]).0 != bins[b]@[j].0,
    ensures
        ({
            let all = refresh_sequence(bins, bins.len() as int, 0);
            &&& apply_pairs(m, all).contains_key(bins[b]@[j].0)
            &&& apply_pairs(m, all)[bins[b]@[j].0] == bins[b]@[j].1
        }),
{
    let all = refresh_sequence(bins, bins.len() as int, 0);
    lemma_full_sequence(bins, bins.len() as int);
    lemma_found_upto(bins, b, j, bins.len() as int);
    bins[b].lemma_drained();
    bins[b].lemma_drained_order();
    lemma_apply_pairs_last(m, all, bins[b]@[j].0);
}

/// The last write to the key of write `j` of shard `b` among the writes of
/// the first `c` shards is that write, where no later write is to its key.
proof fn lemma_found_upto(bins: Seq<EvBin>, b: int, j: int, c: int)
    requires
        forall|k: int| 0 <= k < bins.len() ==> (#[trigger] bins[k]).wf(),
        0 <= b < c <= bins.len(),
        0 <= j < bins[b]@.len(),
        forall|l: int| j < l < bins[b]@.len() ==> (#[trigger] bins[b]@[l]).0 != bins[b]@[j].0,
        forall|k: int, l: int|
            b < k < bins.len() && 0 <= l < bins[k]@.len() ==> (#[trigger] bins[k]@[l]).0 != bins[b]@[j].0,
    ensures
        found_in(refresh_sequence(bins, c, 0), bins[b]@[j].0) == bins[b]@[j].1,
        bins[b]@[j].1 != 0,
    decreases c,
{
    let key = bins[b]@[j].0;
    let before = refresh_sequence(bins, c - 1, 0);
    let last = bins[c - 1].drained();
    lemma_full_sequence(bins, c);
    bins[c - 1].lemma_drained();
    bins[c - 1].lemma_drained_order();
    bins[b].lemma_drained();
    bins[b].lemma_drained_order();
    assert(pair_ok(bins[b].drained()[j].1));
    lemma_found_append(before, last, key);
    if c - 1 == b {
        lemma_found_last(last, j);
    } else {
        lemma_found_upto(bins, b, j, c - 1);
        assert forall|l: int| 0 <= l < last.len() implies (#[trigger] last[l]).1.0 != key by {
            assert(bins[c - 1]@[l].0 != key);
        }
        lemma_found_absent(last, key);
    }
}

/// The last write to a key among `pairs` is the write after which none is
/// to that key.
proof fn lemma_found_last(pairs: Seq<Slot<Pair>>, j: int)
    requires
        0 <= j < pairs.len(),
        forall|l: int| j < l < pairs.len() ==> (#[trigger] pairs[l]).1.0 != pairs[j].1.0,
    ensures
        found_in(pairs, pairs[j].1.0) == pairs[j].1.1,
    decreases pairs.len(),
{
    if j < pairs.len() - 1 {
        assert(pairs[pairs.len() - 1].1.0 != pairs[j].1.0);
        lemma_found_last(pairs.drop_last(), j);
    }
}

/// Among writes of which none is to `key` there is no last write to it.
proof fn lemma_found_absent(pairs: Seq<Slot<Pair>>, key: usize)
    requires
        forall|l: int| 0 <= l < pairs.len() ==> (#[trigger] pairs[l]).1.0 != key,
    ensures
        found_in(pairs, key) == 0,
    decreases pairs.len(),
{
    if pairs.len() > 0 {
        assert(pairs[pairs.len() - 1].1.0 != key);
        lemma_found_absent(pairs.drop_last(), key);
    }
}

/// The sequence of a refresh that looks for nothing holds only writes that
/// the map accepts, none of them to key 0.
proof fn lemma_full_sequence(bins: Seq<EvBin>, j: int)
    requires
        forall|c: int| 0 <= c < bins.len() ==> (#[trigger] bins[c]).wf(),
        0 <= j <= bins.len(),
    ensures
        forall|i: int|
            0 <= i < refresh_sequence(bins, j, 0).len() ==> pair_ok(
                (#[trigger] refresh_sequence(bins, j, 0)[i]).1,
            ),
        found_in(refresh_sequence(bins, j, 0), 0) == 0,
        j > 0 ==> refresh_sequence(bins, j, 0) == refresh_sequence(bins, j - 1, 0) + bins[j
            - 1].drained(),
    decreases j,
{
    if j > 0 {
        lemma_full_sequence(bins, j - 1);
        bins[j - 1].lemma_drained();
        lemma_found_none(refresh_sequence(bins, j, 0));
    }
}

/// The last write to a key among `pairs` is one of `pairs`.
proof fn lemma_found_origin(pairs: Seq<Slot<Pair>>, key: usize)
    requires
        found_in(pairs, key) != 0,
    ensures
        exists|x: int| 0 <= x < pairs.len() && pairs[x].1 == (key, found_in(pairs, key)),
    decreases pairs.len(),
{
    if pairs.len() > 0 {
        if pairs.last().1.0 == key {
            assert(pairs[pairs.len() - 1].1 == (key, found_in(pairs, key)));
        } else {
            lemma_found_origin(pairs.drop_last(), key);
            let x = choose|x: int|
                0 <= x < pairs.drop_last().len() && pairs.drop_last()[x].1 == (
                    key,
                    found_in(pairs.drop_last(), key),
                );
            assert(pairs[x].1 == (key, found_in(pairs, key)));
        }
    }
}

/// Every write of the sequence of a refresh that looks for nothing comes
/// from one of the shards.
proof fn lemma_sequence_origin(bins: Seq<EvBin>, j: int, x: int)
    requires
        forall|c: int| 0 <= c < bins.len() ==> (#[trigger] bins[c]).wf(),
        0 <= j <= bins.len(),
        0 <= x < refresh_sequence(bins, j, 0).len(),
    ensures
        exists|b: int, i: int|
            0 <= b < j && 0 <= i < bins[b].drained().len() && bins[b].drained()[i]
                == refresh_sequence(bins, j, 0)[x],
    decreases j,
{
    lemma_full_sequence(bins, j);
    if j > 0 {
        let before = refresh_sequence(bins, j - 1, 0);
        if x < before.len() {
            lemma_sequence_origin(bins, j - 1, x);
            let (b, i) = choose|b: int, i: int|
                0 <= b < j - 1 && 0 <= i < bins[b].drained().len() && bins[b].drained()[i]
                    == before[x];
            assert(bins[b].drained()[i] == refresh_sequence(bins, j, 0)[x]);
        } else {
            assert(bins[j - 1].drained()[x - before.len()] == refresh_sequence(bins, j, 0)[x]);
        }
    }
}

proof fn lemma_found_none(pairs: Seq<Slot<Pair>>)
    requires
        forall|i: int| 0 <= i < pairs.len() ==> pair_ok((#[trigger] pairs[i]).1),
    ensures
        found_in(pairs, 0) == 0,
    decreases pairs.len(),
{
    if pairs.len() > 0 {
        lemma_found_none(pairs.drop_last());
    }
}

/// A write of shard `b` is a write of the full sequence, and the sequence
/// has a last write to its key.
proof fn lemma_sequence_holds(bins: Seq<EvBin>, j: int, b: int, i: int)
    requires
        forall|c: int| 0 <= c < bins.len() ==> (#[trigger] bins[c]).wf(),
        0 <= b < j <= bins.len(),
        0 <= i < bins[b].drained().len(),
    ensures
        found_in(refresh_sequence(bins, j, 0), bins[b].drained()[i].1.0) != 0,
    decreases j,
{
    let key = bins[b].drained()[i].1.0;
    lemma_full_sequence(bins, j);
    let before = refresh_sequence(bins, j - 1, 0);
    let last = bins[j - 1].drained();
    bins[j - 1].lemma_drained();
    if b < j - 1 {
        lemma_sequence_holds(bins, j - 1, b, i);
        lemma_found_append(before, last, key);
    } else {
        lemma_found_within(last, i);
        lemma_found_append(before, last, key);
    }
}

proof fn lemma_found_within(pairs: Seq<Slot<Pair>>, i: int)
    requires
        0 <= i < pairs.len(),
        forall|k: int| 0 <= k < pairs.len() ==> pair_ok((#[trigger] pairs[k]).1),
    ensures
        found_in(pairs, pairs[i].1.0) != 0,
    decreases pairs.len(),
{
    if i < pairs.len() - 1 {
        lemma_found_within(pairs.drop_last(), i);
    }
}

proof fn lemma_found_append(a: Seq<Slot<Pair>>, b: Seq<Slot<Pair>>, key: usize)
    requires
        forall|k: int| 0 <= k < b.len() ==> pair_ok((#[trigger] b[k]).1),
    ensures
        found_in(a + b, key) == (if found_in(b, key) != 0 {
            found_in(b, key)
        } else {
            found_in(a, key)
        }),
    decreases b.len(),
{
    if b.len() == 0 {
        assert(a + b =~= a);
    } else {
        lemma_found_append(a, b.drop_last(), key);
        assert((a + b).drop_last() =~= a + b.drop_last());
    }
}

} // verus!
