//! Size-classed heap for small objects: per-processor front-ends over
//! superblocks, per-node pools of shared superblocks, and per-node queues for
//! the frees that arrive from other nodes.
//!
//! The superblocks live in one arena and are named by handles, the arena
//! index plus `HANDLE_BASE`: the lists of the front-ends and pools hold
//! handles, and the index of objects maps each object's address to the handle
//! of its superblock.

use crate::bump_heap::{AllocatorInstance, HEAP_VIRT_SIZE};
use crate::collections::evmap::{pair_ok, EvMap};
use crate::collections::lflist::WordList;
use crate::generic_heap::{class_size, MAXIMUM_SMALL_SIZE, NUM_SIZE_CLASS};
use crate::lfmap::{storable, MAX_CAPACITY, PRIME_FLAG};
use crate::utils::{is_pow2, pow2, size_class_index, size_class_index_from_size, CACHE_LINE_SIZE};
use vstd::prelude::*;

verus! {

/// Bytes of object data in a superblock: four objects of the largest class.
pub const SUPERBLOCK_SIZE: usize = MAXIMUM_SMALL_SIZE * 4;

/// Bytes of a superblock's descriptor, padded to the cache line.
pub const SUPERBLOCK_HEADER: usize = 128;

/// Bytes that a superblock takes from its node's bump heap.
pub const SUPERBLOCK_CHUNK: usize = SUPERBLOCK_HEADER + SUPERBLOCK_SIZE;

/// What is added to an arena index to make a handle: 0 and 1 are not words
/// that the lists and maps can hold.
pub const HANDLE_BASE: usize = 2;

/// A region that a node's bump heap may work in: it starts at a cache line,
/// lies in the lower half of the address space, and not at its very start.
pub open spec fn region_ok(base: usize) -> bool {
    2 <= base && base + HEAP_VIRT_SIZE <= PRIME_FLAG && base % CACHE_LINE_SIZE == 0
}

/// A run of equal-sized objects with its descriptor.
pub struct SuperBlock {
    cpu: u16,
    numa: u16,
    tier: u32,
    size: u32,
    reservation: u32,
    used: u32,
    data_base: usize,
    addr: usize,
    free_list: WordList,
}

/// What a superblock handed out.
#[derive(Clone, Copy, Debug, PartialEq, Eq, Structural)]
pub enum Grant {
    /// An address that was freed before.
    Reused(usize),
    /// An address that the cursor reached for the first time.
    Fresh(usize),
}

impl SuperBlock {
    /// The node that owns the superblock.
    pub closed spec fn spec_numa(&self) -> u16 {
        self.numa
    }

    /// The processor that prefers the superblock.
    pub closed spec fn spec_cpu(&self) -> u16 {
        self.cpu
    }

    /// The size class.
    pub closed spec fn spec_tier(&self) -> u32 {
        self.tier
    }

    /// The size of the objects.
    pub closed spec fn spec_size(&self) -> u32 {
        self.size
    }

    /// The address of the first object.
    pub closed spec fn spec_data_base(&self) -> usize {
        self.data_base
    }

    /// The address of the descriptor.
    pub closed spec fn spec_addr(&self) -> usize {
        self.addr
    }

    /// The cursor: the bytes of the data region that were handed out at least
    /// once.
    pub closed spec fn spec_reservation(&self) -> u32 {
        self.reservation
    }

    /// The bytes in use.
    pub closed spec fn spec_used(&self) -> u32 {
        self.used
    }

    /// The addresses that were freed and not handed out again, oldest first.
    pub closed spec fn free(&self) -> Seq<usize> {
        self.free_list@
    }

    /// `addr` is the address of an object of the superblock: it lies in the
    /// data region at a multiple of the object size from its start.
    pub open spec fn in_data(&self, addr: usize) -> bool {
        &&& self.spec_data_base() <= addr < self.spec_data_base() + SUPERBLOCK_SIZE
        &&& (addr - self.spec_data_base()) % (self.spec_size() as int) == 0
    }

    /// `addr` is the address of an object that the superblock handed out at
    /// least once.
    pub open spec fn owns(&self, addr: usize) -> bool {
        &&& self.in_data(addr)
        &&& addr - self.spec_data_base() < self.spec_reservation()
    }

    /// The two superblocks lie at the same place and serve the same class of
    /// the same node.
    pub open spec fn same_place(&self, other: SuperBlock) -> bool {
        &&& self.spec_addr() == other.spec_addr()
        &&& self.spec_data_base() == other.spec_data_base()
        &&& self.spec_tier() == other.spec_tier()
        &&& self.spec_size() == other.spec_size()
        &&& self.spec_numa() == other.spec_numa()
    }

    /// The two superblocks lie at the same place and have the same objects
    /// to hand out: the same free list, cursor and count of bytes in use.
    pub open spec fn same_stock(&self, other: SuperBlock) -> bool {
        &&& self.same_place(other)
        &&& self.free() == other.free()
        &&& self.spec_reservation() == other.spec_reservation()
        &&& self.spec_used() == other.spec_used()
    }

    /// The superblock is `before` after it handed out `g`: the address freed
    /// last where there was one, the address at the cursor otherwise.
    pub open spec fn granted_from(&self, before: SuperBlock, g: Grant) -> bool {
        &&& self.same_place(before)
        &&& spec_grant(before.free(), before.spec_data_base(), before.spec_reservation()) == Some(g)
        &&& self.free() == (if before.free().len() > 0 {
            before.free().drop_last()
        } else {
            before.free()
        })
        &&& self.spec_reservation() == (match g {
            Grant::Fresh(_) => before.spec_reservation() + before.spec_size(),
            Grant::Reused(_) => before.spec_reservation() as int,
        })
        &&& self.spec_used() == before.spec_used().wrapping_add(before.spec_size())
    }

    /// What consistency says of the place and the class of a superblock: the
    /// size of its objects is two to the power of its class plus one, and its
    /// data region follows its descriptor.
    pub proof fn lemma_place(&self)
        requires
            self.wf(),
        ensures
            self.spec_tier() < NUM_SIZE_CLASS,
            self.spec_size() == class_size(self.spec_tier() as nat),
            self.spec_size() == pow2((self.spec_tier() + 1) as nat),
            self.spec_data_base() == self.spec_addr() + SUPERBLOCK_HEADER,
            self.spec_addr() >= 2,
            self.spec_addr() % CACHE_LINE_SIZE == 0,
            self.spec_data_base() % CACHE_LINE_SIZE == 0,
            self.spec_addr() + SUPERBLOCK_CHUNK <= PRIME_FLAG,
            self.spec_reservation() <= SUPERBLOCK_SIZE,
            forall|k: int| 0 <= k < self.free().len() ==> self.owns(#[trigger] self.free()[k]),
    {
        lemma_sum_of_multiples(self.addr as int, SUPERBLOCK_HEADER as int, CACHE_LINE_SIZE as int);
    }

    /// The descriptor and the data region of a superblock start at a cache
    /// line, so every object lies at a multiple of its size, or of the cache
    /// line where the size is larger.
    pub proof fn lemma_aligned(&self, addr: usize)
        requires
            self.wf(),
            self.in_data(addr),
        ensures
            self.spec_size() <= CACHE_LINE_SIZE ==> addr % (self.spec_size() as usize) == 0,
            self.spec_size() >= CACHE_LINE_SIZE ==> addr % CACHE_LINE_SIZE == 0,
    {
        lemma_class_size_bounds(self.tier as nat);
        let size = self.size as int;
        let line = CACHE_LINE_SIZE as int;
        let base = self.data_base as int;
        let offset = addr - base;
        assert(is_pow2(CACHE_LINE_SIZE as nat)) by {
            reveal_with_fuel(is_pow2, 8);
        }
        if size <= line {
            crate::bump_heap::lemma_pow2_multiple(CACHE_LINE_SIZE as nat, self.size as nat);
            lemma_multiple_of_multiple(base, line, size);
            lemma_sum_of_multiples(base, offset, size);
        } else {
            crate::bump_heap::lemma_pow2_multiple(self.size as nat, CACHE_LINE_SIZE as nat);
            lemma_multiple_of_multiple(offset, size, line);
            lemma_sum_of_multiples(base, offset, line);
        }
    }

    /// The superblock is consistent: its objects have the size of its class,
    /// the cursor stands at an object boundary within the data region, and
    /// every freed address is one that it handed out.
    pub closed spec fn wf(&self) -> bool {
        &&& self.tier < NUM_SIZE_CLASS
        &&& self.size == class_size(self.tier as nat)
        &&& self.reservation <= SUPERBLOCK_SIZE
        &&& self.reservation % self.size == 0
        &&& self.data_base == self.addr + SUPERBLOCK_HEADER
        &&& self.addr >= 2
        &&& self.addr % CACHE_LINE_SIZE == 0
        &&& self.data_base + SUPERBLOCK_SIZE <= PRIME_FLAG
        &&& self.free_list.wf()
        &&& forall|k: int| 0 <= k < self.free_list@.len() ==> self.owns(#[trigger] self.free_list@[k])
    }

    /// A superblock of class `tier` whose descriptor lies at `addr`, with no
    /// object handed out.
    pub fn new(addr: usize, tier: u32, size: u32, cpu: u16, numa: u16) -> (r: Self)
        requires
            tier < NUM_SIZE_CLASS,
            size == class_size(tier as nat),
            addr >= 2,
            addr % CACHE_LINE_SIZE == 0,
            addr + SUPERBLOCK_CHUNK <= PRIME_FLAG,
        ensures
            r.wf(),
            r.spec_addr() == addr,
            r.spec_data_base() == addr + SUPERBLOCK_HEADER,
            r.spec_tier() == tier,
            r.spec_size() == size,
            r.spec_cpu() == cpu,
            r.spec_numa() == numa,
            r.spec_reservation() == 0,
            r.spec_used() == 0,
            r.free() == Seq::<usize>::empty(),
    {
        proof {
            lemma_class_size_bounds(tier as nat);
        }
        let r = Self {
            numa,
            tier,
            size,
            data_base: addr + SUPERBLOCK_HEADER,
            addr,
            cpu,
            reservation: 0,
            used: 0,
            free_list: WordList::new(),
        };
        proof {
            assert(r.size >= 2);
            assert(r.addr % CACHE_LINE_SIZE == 0);
            assert(r.reservation == 0);
            assert(0int % (size as int) == 0) by (nonlinear_arith)
                requires
                    size >= 2,
            ;
            assert(r.reservation % r.size == 0);
            assert(r.data_base + SUPERBLOCK_SIZE == addr + SUPERBLOCK_CHUNK);
            assert(r.free_list@.len() == 0);
        }
        r
    }

    /// Hands out an object: the address freed last where there is one, the
    /// address at the cursor otherwise, and nothing where the cursor has
    /// reached the end of the data region.
    pub fn allocate(&mut self) -> (r: Option<Grant>)
        requires
            old(self).wf(),
        ensures
            final(self).wf(),
            final(self).spec_numa() == old(self).spec_numa(),
            final(self).spec_cpu() == old(self).spec_cpu(),
            final(self).spec_tier() == old(self).spec_tier(),
            final(self).spec_size() == old(self).spec_size(),
            final(self).spec_data_base() == old(self).spec_data_base(),
            final(self).spec_addr() == old(self).spec_addr(),
            r == spec_grant(
                old(self).free(),
                old(self).spec_data_base(),
                old(self).spec_reservation(),
            ),
            old(self).free().len() > 0 ==> final(self).free() == old(self).free().drop_last()
                && final(self).spec_reservation() == old(self).spec_reservation(),
            old(self).free().len() == 0 ==> final(self).free() == old(self).free(),
            r matches Some(Grant::Fresh(_)) ==> final(self).spec_reservation() == old(self).spec_reservation() + old(self).spec_size(),
            r is None ==> final(self).spec_reservation() == old(self).spec_reservation()
                && final(self).spec_used() == old(self).spec_used(),
            r is Some ==> final(self).spec_used() == old(self).spec_used().wrapping_add(
                old(self).spec_size(),
            ),
            r matches Some(g) ==> final(self).owns(grant_addr(g)),
            r matches Some(g) ==> final(self).granted_from(*old(self), g),
            r is None ==> final(self).same_stock(*old(self)),
            forall|a: usize| old(self).owns(a) ==> final(self).owns(a),
            forall|a: usize|
                #[trigger] final(self).owns(a) ==> old(self).owns(a) || r == Some(Grant::Fresh(a)),
    {
        proof {
            lemma_class_size_bounds(self.tier as nat);
        }
        let res: Option<Grant> = match self.free_list.pop() {
            Some(addr) => Some(Grant::Reused(addr)),
            None => {
                let pos: u32 = self.reservation;
                if pos as usize >= SUPERBLOCK_SIZE {
                    None
                } else {
                    proof {
                        lemma_next_object(pos as nat, self.size as nat);
                    }
                    self.reservation = pos + self.size;
                    let address: usize = pos as usize + self.data_base;
                    Some(Grant::Fresh(address))
                }
            },
        };
        if res.is_some() {
            self.used = self.used.wrapping_add(self.size);
        }
        proof {
            assert forall|a: usize| #[trigger] self.owns(a) implies old(self).owns(a) || res == Some(
                Grant::Fresh(a),
            ) by {
                if !old(self).owns(a) {
                    lemma_one_object(
                        old(self).reservation as nat,
                        (a - self.data_base) as nat,
                        self.size as nat,
                    );
                }
            }
        }
        res
    }

    /// Takes back the object at `addr`, if the superblock ever handed it out
    /// and its free list has room: the address becomes the next to be handed
    /// out.  Returns whether it did.
    pub fn dealloc(&mut self, addr: usize) -> (r: bool)
        requires
            old(self).wf(),
        ensures
            final(self).wf(),
            final(self).spec_numa() == old(self).spec_numa(),
            final(self).spec_cpu() == old(self).spec_cpu(),
            final(self).spec_tier() == old(self).spec_tier(),
            final(self).spec_size() == old(self).spec_size(),
            final(self).spec_data_base() == old(self).spec_data_base(),
            final(self).spec_addr() == old(self).spec_addr(),
            final(self).spec_reservation() == old(self).spec_reservation(),
            r == (old(self).owns(addr) && old(self).free().len() < usize::MAX),
            r ==> final(self).free() == old(self).free().push(addr) && final(self).spec_used()
                == old(self).spec_used().wrapping_sub(old(self).spec_size()),
            !r ==> final(self).free() == old(self).free() && final(self).spec_used() == old(self).spec_used(),
    {
        proof {
            lemma_class_size_bounds(self.tier as nat);
        }
        if addr < self.data_base || addr - self.data_base >= self.reservation as usize || (addr
            - self.data_base) % (self.size as usize) != 0 || self.free_list.count() == usize::MAX {
            return false;
        }
        self.free_list.push(addr);
        self.used = self.used.wrapping_sub(self.size);
        true
    }

    /// Whether `addr` is the address of an object that the superblock handed
    /// out at least once.
    pub fn contains(&self, addr: usize) -> (r: bool)
        requires
            self.wf(),
        ensures
            r == self.owns(addr),
    {
        proof {
            lemma_class_size_bounds(self.tier as nat);
        }
        addr >= self.data_base && addr - self.data_base < self.reservation as usize && (addr
            - self.data_base) % (self.size as usize) == 0
    }

    /// The size of the objects.
    pub fn size(&self) -> (r: u32)
        ensures
            r == self.spec_size(),
    {
        self.size
    }

    /// The node that owns the superblock.
    pub fn numa(&self) -> (r: u16)
        ensures
            r == self.spec_numa(),
    {
        self.numa
    }
}

/// The address of a grant.
pub open spec fn grant_addr(g: Grant) -> usize {
    match g {
        Grant::Reused(a) => a,
        Grant::Fresh(a) => a,
    }
}

/// What a superblock with the free list `free`, the data region at
/// `data_base` and the cursor `reservation` hands out next.
pub open spec fn spec_grant(free: Seq<usize>, data_base: usize, reservation: u32) -> Option<Grant> {
    if free.len() > 0 {
        Some(Grant::Reused(free.last()))
    } else if reservation >= SUPERBLOCK_SIZE {
        None
    } else {
        Some(Grant::Fresh((data_base + reservation) as usize))
    }
}

/// Local reuse: an address that was just freed is the next that its
/// superblock hands out, before any address that the cursor has yet to
/// reach.
pub proof fn lemma_local_reuse(free: Seq<usize>, data_base: usize, reservation: u32, addr: usize)
    ensures
        spec_grant(free.push(addr), data_base, reservation) == Some(Grant::Reused(addr)),
{
}

/// Two objects handed out one after the other, with no free between them,
/// lie at different addresses, as long as no address stands twice in the free
/// list, which is to say that no object was freed twice.
pub proof fn lemma_successive_grants_differ(block: SuperBlock)
    requires
        block.wf(),
        block.free().no_duplicates(),
        spec_grant(block.free(), block.spec_data_base(), block.spec_reservation()) is Some,
    ensures
        ({
            let first = spec_grant(block.free(), block.spec_data_base(), block.spec_reservation());
            let second = match first->Some_0 {
                Grant::Reused(_) => spec_grant(
                    block.free().drop_last(),
                    block.spec_data_base(),
                    block.spec_reservation(),
                ),
                Grant::Fresh(_) => spec_grant(
                    block.free(),
                    block.spec_data_base(),
                    (block.spec_reservation() + block.spec_size()) as u32,
                ),
            };
            second matches Some(g) ==> grant_addr(g) != grant_addr(first->Some_0)
        }),
{
    lemma_class_size_bounds(block.tier as nat);
    let free = block.free();
    if free.len() > 0 {
        let rest = free.drop_last();
        if rest.len() > 0 {
            assert(rest.last() == free[free.len() - 2]);
            assert(free.last() == free[free.len() - 1]);
        } else {
            assert(block.owns(free[free.len() - 1]));
        }
    } else {
        lemma_next_object(block.reservation as nat, block.size as nat);
    }
}

/// The sizes of the small classes: powers of two from 2 to
/// `MAXIMUM_SMALL_SIZE`, each of which divides the data region of a
/// superblock.
pub proof fn lemma_class_size_bounds(tier: nat)
    requires
        tier < NUM_SIZE_CLASS,
    ensures
        2 <= class_size(tier) <= MAXIMUM_SMALL_SIZE,
        is_pow2(class_size(tier)),
        SUPERBLOCK_SIZE as nat % class_size(tier) == 0,
        class_size(tier) == pow2(tier + 1),
{
    reveal_with_fuel(pow2, 3);
    crate::utils::lemma_pow2_monotonic(1, tier + 1);
    crate::utils::lemma_pow2_monotonic(tier + 1, 16);
    crate::utils::lemma_pow2_is_pow2(tier + 1);
    crate::utils::lemma_pow2_is_pow2(18);
    assert(pow2(16) == 65536 && pow2(18) == 262144) by {
        reveal_with_fuel(pow2, 20);
    }
    crate::utils::lemma_pow2_monotonic(tier + 1, 18);
    crate::bump_heap::lemma_pow2_multiple(SUPERBLOCK_SIZE as nat, class_size(tier));
}

/// A multiple of a multiple of `c` is a multiple of `c`.
proof fn lemma_multiple_of_multiple(a: int, b: int, c: int)
    requires
        b > 0,
        c > 0,
        a % b == 0,
        b % c == 0,
    ensures
        a % c == 0,
{
    vstd::arithmetic::div_mod::lemma_fundamental_div_mod(a, b);
    vstd::arithmetic::div_mod::lemma_fundamental_div_mod(b, c);
    let q = a / b;
    let p = b / c;
    assert(a == (q * p) * c) by (nonlinear_arith)
        requires
            a == b * q,
            b == c * p,
    ;
    vstd::arithmetic::div_mod::lemma_mod_multiples_basic(q * p, c);
}

/// The sum of two multiples of `c` is a multiple of `c`.
proof fn lemma_sum_of_multiples(a: int, b: int, c: int)
    requires
        c > 0,
        a % c == 0,
        b % c == 0,
    ensures
        (a + b) % c == 0,
{
    vstd::arithmetic::div_mod::lemma_fundamental_div_mod(a, c);
    vstd::arithmetic::div_mod::lemma_fundamental_div_mod(b, c);
    let q = a / c;
    let p = b / c;
    assert(a + b == (q + p) * c) by (nonlinear_arith)
        requires
            a == c * q,
            b == c * p,
    ;
    vstd::arithmetic::div_mod::lemma_mod_multiples_basic(q + p, c);
}

/// Between one object boundary and the next lies no other.
proof fn lemma_one_object(pos: nat, offset: nat, size: nat)
    requires
        size > 0,
        pos % size == 0,
        offset % size == 0,
        pos <= offset < pos + size,
    ensures
        offset == pos,
{
    let s = size as int;
    vstd::arithmetic::div_mod::lemma_fundamental_div_mod(pos as int, s);
    vstd::arithmetic::div_mod::lemma_fundamental_div_mod(offset as int, s);
    let kp = pos as int / s;
    let ko = offset as int / s;
    assert(ko == kp) by (nonlinear_arith)
        requires
            s > 0,
            s * kp <= s * ko < s * kp + s,
    ;
}

/// A cursor at an object boundary short of the end of the data region has
/// room for one more object.
proof fn lemma_next_object(pos: nat, size: nat)
    requires
        size > 0,
        pos % size == 0,
        SUPERBLOCK_SIZE as nat % size == 0,
        pos < SUPERBLOCK_SIZE,
    ensures
        pos + size <= SUPERBLOCK_SIZE,
        (pos + size) % size == 0,
{
    let c = SUPERBLOCK_SIZE as int;
    let p = pos as int;
    let s = size as int;
    vstd::arithmetic::div_mod::lemma_fundamental_div_mod(p, s);
    vstd::arithmetic::div_mod::lemma_fundamental_div_mod(c, s);
    let kp = p / s;
    let kc = c / s;
    assert(p == s * kp);
    assert(c == s * kc);
    assert(kp < kc) by (nonlinear_arith)
        requires
            s * kp < s * kc,
            s > 0,
    ;
    assert(s * (kp + 1) <= s * kc) by (nonlinear_arith)
        requires
            kp + 1 <= kc,
            s > 0,
    ;
    assert(s * (kp + 1) == p + s) by (nonlinear_arith)
        requires
            p == s * kp,
    ;
    vstd::arithmetic::div_mod::lemma_mod_multiples_basic(kp + 1, s);
    assert((kp + 1) * s == s * (kp + 1)) by (nonlinear_arith);
}


/// Where a thread runs: its processor and that processor's node.
#[derive(Clone, Copy, Debug, PartialEq, Eq, Structural)]
pub struct ThreadMeta {
    pub numa: u16,
    pub cpu: u16,
}

impl ThreadMeta {
    /// The place of a thread on processor `cpu_id` of node `numa_id`.
    pub fn new(cpu_id: u16, numa_id: u16) -> (r: Self)
        ensures
            r.cpu == cpu_id,
            r.numa == numa_id,
    {
        Self { numa: numa_id, cpu: cpu_id }
    }
}

/// One size class of a processor or of a node: the superblocks that it
/// prefers, newest on top.
pub struct SizeClass {
    numa: u16,
    cpu: u16,
    tier: u32,
    size: u32,
    blocks: WordList,
}

impl SizeClass {
    /// The handles of the superblocks, oldest first.
    pub closed spec fn handles(&self) -> Seq<usize> {
        self.blocks@
    }

    /// The number of the class.
    pub closed spec fn spec_tier(&self) -> u32 {
        self.tier
    }

    /// The size of the objects of the class.
    pub closed spec fn spec_size(&self) -> u32 {
        self.size
    }

    /// The node of the class.
    pub closed spec fn spec_numa(&self) -> u16 {
        self.numa
    }

    /// The processor of the class; 0 for the class of a node's pool.
    pub closed spec fn spec_cpu(&self) -> u16 {
        self.cpu
    }

    /// The class is one of the small classes, and its size is the size of
    /// that class.
    pub closed spec fn wf(&self) -> bool {
        &&& self.blocks.wf()
        &&& self.tier < NUM_SIZE_CLASS
        &&& self.size == class_size(self.tier as nat)
    }

    /// The class `tier` of processor `cpu` on node `numa`, with no
    /// superblock.
    pub fn new(tier: u32, size: u32, cpu: u16, numa: u16) -> (r: Self)
        requires
            tier < NUM_SIZE_CLASS,
            size == class_size(tier as nat),
        ensures
            r.wf(),
            r.spec_tier() == tier,
            r.spec_size() == size,
            r.spec_cpu() == cpu,
            r.spec_numa() == numa,
            r.handles() == Seq::<usize>::empty(),
    {
        Self { tier, size, numa, cpu, blocks: WordList::new() }
    }

    /// The size of the objects of a class is two to the power of its number
    /// plus one.
    pub proof fn lemma_size(&self)
        requires
            self.wf(),
        ensures
            self.spec_tier() < NUM_SIZE_CLASS,
            self.spec_size() == class_size(self.spec_tier() as nat),
            self.spec_size() == pow2((self.spec_tier() + 1) as nat),
    {
    }
}

/// The size classes of processor `cpu` on node `numa`: class `i` holds
/// objects of `class_size(i)` bytes.
pub fn size_classes(cpu: u16, numa: u16) -> (r: Vec<SizeClass>)
    ensures
        classes_ok(r@, cpu, numa),
        forall|i: int| 0 <= i < NUM_SIZE_CLASS ==> (#[trigger] r@[i]).handles() == Seq::<usize>::empty(),
        forall|i: int|
            0 <= i < NUM_SIZE_CLASS ==> (#[trigger] r@[i]).spec_size() == class_size(i as nat) && r@[i].spec_size()
                == pow2((i + 1) as nat),
{
    let mut data: Vec<SizeClass> = Vec::new();
    let mut size: u32 = 2;
    let mut tier: u32 = 0;
    proof {
        reveal_with_fuel(pow2, 3);
    }
    while tier < 16
        invariant
            0 <= tier <= NUM_SIZE_CLASS,
            data@.len() == tier,
            size == class_size(tier as nat),
            forall|j: int|
                0 <= j < tier ==> {
                    &&& (#[trigger] data@[j]).wf()
                    &&& data@[j].spec_tier() == j
                    &&& data@[j].spec_cpu() == cpu
                    &&& data@[j].spec_numa() == numa
                    &&& data@[j].handles() == Seq::<usize>::empty()
                    &&& data@[j].spec_size() == class_size(j as nat)
                },
        decreases NUM_SIZE_CLASS - tier,
    {
        proof {
            lemma_class_size_bounds(tier as nat);
            assert(class_size((tier + 1) as nat) == 2 * class_size(tier as nat));
        }
        data.push(SizeClass::new(tier, size, cpu, numa));
        tier = tier + 1;
        size = size * 2;
    }
    data
}

/// `classes` are the size classes of processor `cpu` on node `numa`.
pub open spec fn classes_ok(classes: Seq<SizeClass>, cpu: u16, numa: u16) -> bool {
    &&& classes.len() == NUM_SIZE_CLASS
    &&& forall|i: int|
        0 <= i < NUM_SIZE_CLASS ==> {
            &&& (#[trigger] classes[i]).wf()
            &&& classes[i].spec_tier() == i
            &&& classes[i].spec_cpu() == cpu
            &&& classes[i].spec_numa() == numa
        }
}

/// The front-ends of one processor.
pub struct CoreMeta {
    size_class_list: Vec<SizeClass>,
}

/// What one node keeps: its pools of shared superblocks, the bump heap that
/// its superblocks are carved from, the frees that arrived from other nodes,
/// and the index of its objects.
pub struct NodeMeta {
    size_class_list: Vec<SizeClass>,
    bump_allocator: AllocatorInstance,
    pending_free: WordList,
    objects: EvMap,
}

impl NodeMeta {
    /// The node is consistent as node `n` of `count`.
    pub closed spec fn node_ok(&self, n: int, count: nat) -> bool {
        &&& classes_ok(self.size_class_list@, 0, n as u16)
        &&& self.bump_allocator.wf()
        &&& region_ok(self.bump_allocator.spec_base())
        &&& self.pending_free.wf()
        &&& self.pending_free.spec_buffer_cap() == crate::collections::lflist::DEFAULT_BUFFER_CAP
        &&& self.objects.wf()
        &&& self.objects.spec_nodes() == count
    }
}

/// Whether the object of `size` bytes at `addr` is aligned to `align`, as far
/// as an object of its size has to be: an object smaller than `align` need
/// not be.
pub fn debug_check_cache_aligned(addr: usize, size: usize, align: usize) -> (r: bool)
    requires
        align > 0,
    ensures
        r == (size < align || addr % align == 0),
{
    proof {
        crate::utils::lemma_padding_to(addr as nat, align as nat);
    }
    size < align || crate::utils::align_padding(addr, align) == 0
}

/// The largest object that the small heap serves.
pub fn maximum_size() -> (r: usize)
    ensures
        r == MAXIMUM_SMALL_SIZE,
        r == class_size((NUM_SIZE_CLASS - 1) as nat),
{
    proof {
        crate::generic_heap::lemma_class_sizes(0);
    }
    MAXIMUM_SMALL_SIZE
}

/// Outcome of an allocation.
#[derive(Clone, Copy, Debug, PartialEq, Eq, Structural)]
pub enum AllocResult {
    /// The address of the object.
    Allocated(usize),
    /// The bump heap of the given node has no room for another superblock:
    /// reserve a region, hand it over with `provide_region`, and ask again.
    NeedRegion(u16),
    /// The heap cannot keep track of another object or superblock.
    Exhausted,
}

/// What the nodes keep, node by node, in a `smallvec::SmallVec` that holds
/// up to 4 of them inline.  Verus does not look inside: what the vector holds
/// is `node_items`, and the five functions below are believed to do to it
/// what the vector's own methods do.
#[verifier::external_body]
pub struct NodeList {
    inner: smallvec::SmallVec<[NodeMeta; 4]>,
}

/// What the nodes keep, in the order of the vector.
pub uninterp spec fn node_items(v: NodeList) -> Seq<NodeMeta>;

impl NodeList {
    /// What the nodes keep, node by node.
    pub open spec fn view(&self) -> Seq<NodeMeta> {
        node_items(*self)
    }
}

/// Calls `SmallVec::new`: the new vector holds nothing.
#[verifier::external_body]
fn nodes_new() -> (r: NodeList)
    ensures
        node_items(r) == Seq::<NodeMeta>::empty(),
{
    NodeList { inner: smallvec::SmallVec::new() }
}

/// Calls `SmallVec::push`: the item is appended.  The call panics with
/// "capacity overflow" where the next power of two above the length, in
/// items, passes the largest size of an allocation; with fewer than 65535
/// items of well under a kilobyte it does not.
#[verifier::external_body]
fn nodes_push(v: &mut NodeList, item: NodeMeta)
    requires
        node_items(*old(v)).len() < u16::MAX,
    ensures
        node_items(*final(v)) == node_items(*old(v)).push(item),
{
    v.inner.push(item)
}

/// Calls `SmallVec::len`: the number of items held.
#[verifier::external_body]
fn nodes_len(v: &NodeList) -> (r: usize)
    ensures
        r == node_items(*v).len(),
{
    v.inner.len()
}

/// Indexes the `SmallVec`, which derefs to the slice of its items: the item
/// at `index`.
#[verifier::external_body]
fn node_at(v: &NodeList, index: usize) -> (r: &NodeMeta)
    requires
        index < node_items(*v).len(),
    ensures
        *r == node_items(*v)[index as int],
{
    &v.inner[index]
}

/// Indexes the `SmallVec` for change, through the slice of its items: the
/// item at `index`, and what the caller makes of it is the item at `index`
/// afterwards, the others being as they were.
#[verifier::external_body]
fn node_mut(v: &mut NodeList, index: usize) -> (r: &mut NodeMeta)
    requires
        index < node_items(*old(v)).len(),
    ensures
        *r == node_items(*old(v))[index as int],
        node_items(*final(v)) == node_items(*old(v)).update(index as int, *final(r)),
{
    &mut v.inner[index]
}

/// The front-ends of the processors, processor by processor, in a
/// `smallvec::SmallVec` that holds up to 64 of them inline.  Verus does not
/// look inside: what the vector holds is `core_items`, and the five
/// functions below are believed to do to it what the vector's own methods do.
#[verifier::external_body]
pub struct CoreList {
    inner: smallvec::SmallVec<[CoreMeta; 64]>,
}

/// The front-ends of the processors, in the order of the vector.
pub uninterp spec fn core_items(v: CoreList) -> Seq<CoreMeta>;

impl CoreList {
    /// The front-ends, processor by processor.
    pub open spec fn view(&self) -> Seq<CoreMeta> {
        core_items(*self)
    }
}

/// Calls `SmallVec::new`: the new vector holds nothing.
#[verifier::external_body]
fn cores_new() -> (r: CoreList)
    ensures
        core_items(r) == Seq::<CoreMeta>::empty(),
{
    CoreList { inner: smallvec::SmallVec::new() }
}

/// Calls `SmallVec::push`: the item is appended.  The call panics with
/// "capacity overflow" where the next power of two above the length, in
/// items, passes the largest size of an allocation; with fewer than 65535
/// items of a few words it does not.
#[verifier::external_body]
fn cores_push(v: &mut CoreList, item: CoreMeta)
    requires
        core_items(*old(v)).len() < u16::MAX,
    ensures
        core_items(*final(v)) == core_items(*old(v)).push(item),
{
    v.inner.push(item)
}

/// Indexes the `SmallVec`, which derefs to the slice of its items: the item
/// at `index`.
#[verifier::external_body]
fn core_at(v: &CoreList, index: usize) -> (r: &CoreMeta)
    requires
        index < core_items(*v).len(),
    ensures
        *r == core_items(*v)[index as int],
{
    &v.inner[index]
}

/// Indexes the `SmallVec` for change, through the slice of its items: the
/// item at `index`, and what the caller makes of it is the item at `index`
/// afterwards, the others being as they were.
#[verifier::external_body]
fn core_mut(v: &mut CoreList, index: usize) -> (r: &mut CoreMeta)
    requires
        index < core_items(*old(v)).len(),
    ensures
        *r == core_items(*old(v))[index as int],
        core_items(*final(v)) == core_items(*old(v)).update(index as int, *final(r)),
{
    &mut v.inner[index]
}

/// The small heap.
pub struct SmallHeap {
    nodes: NodeList,
    cpus: CoreList,
    cpu_node: Vec<u16>,
    blocks: Vec<SuperBlock>,
}

impl SmallHeap {
    /// The superblocks, in the order of their handles.
    pub closed spec fn spec_blocks(&self) -> Seq<SuperBlock> {
        self.blocks@
    }

    /// The number of nodes.
    pub closed spec fn spec_nodes(&self) -> nat {
        self.nodes@.len()
    }

    /// The node of each processor.
    pub closed spec fn spec_cpu_node(&self) -> Seq<u16> {
        self.cpu_node@
    }

    /// The frees from other nodes that wait at node `numa`, oldest first.
    pub closed spec fn pending(&self, numa: int) -> Seq<usize> {
        self.nodes@[numa].pending_free@
    }

    /// The index of objects of node `numa`: each address with the handle of
    /// its superblock, as far as the shards have been drained.
    pub closed spec fn objects(&self, numa: int) -> Map<usize, usize> {
        self.nodes@[numa].objects.contents()
    }

    /// The regions that the bump heaps of the nodes work in, by node.
    pub closed spec fn regions(&self) -> Seq<usize> {
        self.nodes@.map_values(|n: NodeMeta| n.bump_allocator.spec_base())
    }

    /// The cursors of the bump heaps of the nodes, by node: the start of the
    /// part of each region from which no superblock was carved.
    pub closed spec fn cursors(&self) -> Seq<usize> {
        self.nodes@.map_values(|n: NodeMeta| n.bump_allocator.spec_tail())
    }

    /// The addresses of the superblocks' descriptors, in the order of their
    /// handles.
    pub closed spec fn addrs(&self) -> Seq<usize> {
        self.blocks@.map_values(|b: SuperBlock| b.spec_addr())
    }

    /// The region that the bump heap of node `numa` works in.
    pub open spec fn region(&self, numa: int) -> usize {
        self.regions()[numa]
    }

    /// The cursor of the bump heap of node `numa`.
    pub open spec fn cursor(&self, numa: int) -> usize {
        self.cursors()[numa]
    }

    /// The sequences list the superblocks and the nodes of the heap.
    pub proof fn lemma_sequences(&self)
        ensures
            self.regions().len() == self.spec_nodes(),
            self.cursors().len() == self.spec_nodes(),
            self.addrs().len() == self.spec_blocks().len(),
            forall|i: int|
                0 <= i < self.spec_blocks().len() ==> self.addrs()[i] == (#[trigger] self.spec_blocks()[i]).spec_addr(),
    {
    }

    /// The sequences list the cursors and regions of the nodes' bump heaps.
    proof fn lemma_cursors(&self)
        ensures
            forall|n: int|
                0 <= n < self.nodes@.len() ==> self.cursors()[n] == (#[trigger] self.nodes@[n]).bump_allocator.spec_tail()
                    && self.regions()[n] == self.nodes@[n].bump_allocator.spec_base(),
    {
    }

    /// The handles of the superblocks in the pool of node `numa` for class
    /// `tier`, oldest first.
    pub closed spec fn shared(&self, numa: int, tier: int) -> Seq<usize> {
        self.nodes@[numa].size_class_list@[tier].handles()
    }

    /// The handles of the superblocks that processor `cpu` prefers for class
    /// `tier`, oldest first.
    pub closed spec fn preferred(&self, cpu: int, tier: int) -> Seq<usize> {
        self.cpus@[cpu].size_class_list@[tier].handles()
    }

    /// `meta` names a processor of this heap and its node.
    pub open spec fn knows(&self, meta: ThreadMeta) -> bool {
        &&& meta.cpu < self.spec_cpu_node().len()
        &&& meta.numa == self.spec_cpu_node()[meta.cpu as int]
    }

    /// The superblock that `handle` names, if it names one.
    pub open spec fn named(&self, handle: usize) -> Option<int> {
        if handle >= HANDLE_BASE && handle - HANDLE_BASE < self.spec_blocks().len() {
            Some(handle - HANDLE_BASE)
        } else {
            None
        }
    }

    /// No two superblocks overlap, none reaches into the part of a region
    /// that is yet to be carved, and no two nodes work in overlapping
    /// regions.
    pub open spec fn layout_ok(&self) -> bool {
        layout(self.addrs(), self.regions(), self.cursors())
    }

    /// The index of objects of node `numa` knows the pair `p`, an address
    /// with a handle: the pair stands in the index, or waits in one of its
    /// shards.
    pub closed spec fn known(&self, numa: int, p: (usize, usize)) -> bool {
        self.nodes@[numa].objects.knows(p)
    }

    /// No write waits in the shards of the index of objects of node `numa`.
    pub closed spec fn up_to_date(&self, numa: int) -> bool {
        forall|p: (usize, usize)| !self.nodes@[numa].objects.pending_pair(p)
    }

    /// The superblock that handed out the object at `addr`, if there is one.
    pub open spec fn owner(&self, addr: usize) -> Option<int> {
        if exists|i: int| 0 <= i < self.spec_blocks().len() && self.spec_blocks()[i].owns(addr) {
            Some(
                choose|i: int| 0 <= i < self.spec_blocks().len() && self.spec_blocks()[i].owns(addr),
            )
        } else {
            None
        }
    }

    /// The owner of an address is the one superblock that handed it out.
    pub proof fn lemma_owner(&self, addr: usize, i: int)
        requires
            self.wf(),
            0 <= i < self.spec_blocks().len(),
            self.spec_blocks()[i].owns(addr),
        ensures
            self.owner(addr) == Some(i),
            addr >= 2,
    {
        let j = self.owner(addr)->Some_0;
        self.lemma_one_superblock(addr, i, j);
        self.blocks@[i].lemma_place();
    }

    /// An object keeps its owner while no superblock is added and no cursor
    /// moves.
    pub proof fn lemma_owner_kept(&self, before: Self, addr: usize)
        requires
            self.wf(),
            before.wf(),
            self.same_layout(before),
            forall|j: int|
                0 <= j < before.spec_blocks().len() ==> (#[trigger] self.spec_blocks()[j]).spec_reservation()
                    == before.spec_blocks()[j].spec_reservation(),
        ensures
            self.owner(addr) == before.owner(addr),
    {
        if before.owner(addr) is Some {
            let i = before.owner(addr)->Some_0;
            assert(before.spec_blocks()[i].owns(addr));
            assert(self.spec_blocks()[i].owns(addr));
            self.lemma_owner(addr, i);
        } else if self.owner(addr) is Some {
            let i = self.owner(addr)->Some_0;
            assert(self.spec_blocks()[i].owns(addr));
            assert(self.spec_blocks()[i].same_place(before.spec_blocks()[i]));
            assert(before.spec_blocks()[i].owns(addr));
        }
    }

    /// Every pair that an index of objects knows is the address of an object
    /// with the handle of the superblock that handed it out, and the index is
    /// that of the superblock's node.
    pub open spec fn sound(&self) -> bool {
        forall|n: int, p: (usize, usize)|
            0 <= n < self.spec_nodes() && #[trigger] self.known(n, p) ==> handle_owns(
                self.spec_blocks(),
                n,
                p.0,
                p.1,
            )
    }

    /// Every object that a superblock handed out is known to the index of
    /// objects of the superblock's node, under the superblock's handle.
    pub open spec fn published(&self) -> bool {
        forall|i: int, a: usize|
            0 <= i < self.spec_blocks().len() && #[trigger] self.spec_blocks()[i].owns(a)
                ==> self.known(
                self.spec_blocks()[i].spec_numa() as int,
                (a, (i + HANDLE_BASE) as usize),
            )
    }

    /// What stands in an index of objects is known to it.
    pub proof fn lemma_objects_known(&self, numa: int, addr: usize)
        requires
            self.objects(numa).contains_key(addr),
        ensures
            self.known(numa, (addr, self.objects(numa)[addr])),
    {
    }

    /// A heap whose indexes of objects are those of `self`, and whose
    /// superblocks have handed out what those of `self` have, keeps the books
    /// of `self`.
    proof fn lemma_books_kept(&self, after: Self)
        requires
            self.sound(),
            self.published(),
            after.nodes@.len() == self.nodes@.len(),
            forall|n: int|
                0 <= n < self.nodes@.len() ==> (#[trigger] after.nodes@[n]).objects
                    == self.nodes@[n].objects,
            after.blocks@.len() >= self.blocks@.len(),
            forall|i: int|
                0 <= i < self.blocks@.len() ==> (#[trigger] self.blocks@[i]).spec_numa()
                    < self.nodes@.len(),
            forall|i: int|
                0 <= i < self.blocks@.len() ==> (#[trigger] after.blocks@[i]).same_place(
                    self.blocks@[i],
                ) && after.blocks@[i].spec_reservation() == self.blocks@[i].spec_reservation(),
            forall|i: int|
                self.blocks@.len() <= i < after.blocks@.len() ==> (#[trigger] after.blocks@[i]).spec_reservation()
                    == 0,
        ensures
            after.sound(),
            after.published(),
    {
        assert forall|n: int, p: (usize, usize)|
            0 <= n < after.spec_nodes() && #[trigger] after.known(n, p) implies handle_owns(
            after.spec_blocks(),
            n,
            p.0,
            p.1,
        ) by {
            assert(self.known(n, p));
            let i = p.1 - HANDLE_BASE;
            assert(after.blocks@[i].same_place(self.blocks@[i]));
        }
        assert forall|i: int, a: usize|
            0 <= i < after.spec_blocks().len() && #[trigger] after.spec_blocks()[i].owns(
                a,
            ) implies after.known(
            after.spec_blocks()[i].spec_numa() as int,
            (a, (i + HANDLE_BASE) as usize),
        ) by {
            if i < self.blocks@.len() {
                assert(after.blocks@[i].same_place(self.blocks@[i]));
                assert(self.spec_blocks()[i].owns(a));
                let numa = self.blocks@[i].spec_numa() as int;
                assert(after.nodes@[numa].objects == self.nodes@[numa].objects);
                assert(self.known(numa, (a, (i + HANDLE_BASE) as usize)));
            }
        }
    }

    /// A heap in which the index of objects of node `numa` was brought up to
    /// date, and nothing else was done to `self`, keeps the books of `self`.
    proof fn lemma_books_refreshed(&self, after: Self, numa: int)
        requires
            self.sound(),
            self.published(),
            self.layout_ok(),
            0 <= numa < self.nodes@.len(),
            forall|i: int|
                0 <= i < self.blocks@.len() ==> (#[trigger] self.blocks@[i]).wf()
                    && self.blocks@[i].spec_numa() < self.nodes@.len(),
            after.nodes@.len() == self.nodes@.len(),
            after.blocks@ == self.blocks@,
            forall|n: int|
                0 <= n < self.nodes@.len() && n != numa ==> (#[trigger] after.nodes@[n]).objects
                    == self.nodes@[n].objects,
            after.nodes@[numa].objects.refreshed(self.nodes@[numa].objects),
        ensures
            after.sound(),
            after.published(),
    {
        assert forall|n: int, p: (usize, usize)|
            0 <= n < after.spec_nodes() && #[trigger] after.known(n, p) implies handle_owns(
            after.spec_blocks(),
            n,
            p.0,
            p.1,
        ) by {
            if n != numa {
                assert(after.nodes@[n].objects == self.nodes@[n].objects);
            }
            assert(self.known(n, p));
        }
        assert forall|i: int, a: usize|
            0 <= i < after.spec_blocks().len() && #[trigger] after.spec_blocks()[i].owns(
                a,
            ) implies after.known(
            after.spec_blocks()[i].spec_numa() as int,
            (a, (i + HANDLE_BASE) as usize),
        ) by {
            let home = self.blocks@[i].spec_numa() as int;
            let p = (a, (i + HANDLE_BASE) as usize);
            assert(self.spec_blocks()[i].owns(a));
            assert(self.known(home, p));
            if home != numa {
                assert(after.nodes@[home].objects == self.nodes@[home].objects);
            } else {
                // The refreshed index holds the address; the handle that it
                // holds names a superblock that owns the address, and there
                // is only one.
                let index = after.nodes@[numa].objects.contents();
                assert(index.contains_key(a));
                let q = (a, index[a]);
                assert(after.nodes@[numa].objects.knows(q));
                assert(self.known(numa, q));
                assert(handle_owns(self.spec_blocks(), numa, q.0, q.1));
                let j = q.1 - HANDLE_BASE;
                self.lemma_unique_owner(a, i, j);
            }
        }
    }

    /// An address lies in the data region of at most one superblock.
    proof fn lemma_unique_owner(&self, addr: usize, i: int, j: int)
        requires
            self.layout_ok(),
            0 <= i < self.blocks@.len(),
            0 <= j < self.blocks@.len(),
            self.blocks@[i].wf(),
            self.blocks@[j].wf(),
            self.blocks@[i].in_data(addr),
            self.blocks@[j].in_data(addr),
        ensures
            i == j,
    {
        self.blocks@[i].lemma_place();
        self.blocks@[j].lemma_place();
        if i != j {
            assert(apart(self.addrs()[i], SUPERBLOCK_CHUNK, self.addrs()[j], SUPERBLOCK_CHUNK));
        }
    }

    /// The heap is consistent.
    pub closed spec fn wf(&self) -> bool {
        &&& 0 < self.nodes@.len() <= u16::MAX
        &&& self.cpus@.len() == self.cpu_node@.len()
        &&& self.cpus@.len() <= u16::MAX
        &&& self.blocks@.len() <= MAX_CAPACITY
        &&& forall|c: int| 0 <= c < self.cpu_node@.len() ==> (#[trigger] self.cpu_node@[c]) < self.nodes@.len()
        &&& forall|c: int|
            0 <= c < self.cpus@.len() ==> classes_ok(
                (#[trigger] self.cpus@[c]).size_class_list@,
                c as u16,
                self.cpu_node@[c],
            )
        &&& forall|n: int|
            0 <= n < self.nodes@.len() ==> (#[trigger] self.nodes@[n]).node_ok(
                n,
                self.nodes@.len(),
            )
        &&& forall|i: int|
            0 <= i < self.blocks@.len() ==> (#[trigger] self.blocks@[i]).wf() && self.blocks@[i].spec_numa()
                < self.nodes@.len()
        &&& self.layout_ok()
        &&& self.sound()
        &&& self.published()
    }

    /// The heap has the nodes, processors, regions and superblocks of
    /// `before`, each superblock at its place, and every object that a
    /// superblock had handed out is still its own.
    pub open spec fn anchored(&self, before: Self) -> bool {
        &&& self.spec_nodes() == before.spec_nodes()
        &&& self.spec_cpu_node() == before.spec_cpu_node()
        &&& self.spec_blocks().len() >= before.spec_blocks().len()
        &&& self.regions() == before.regions()
        &&& forall|i: int|
            0 <= i < before.spec_blocks().len() ==> (#[trigger] self.spec_blocks()[i]).same_place(
                before.spec_blocks()[i],
            )
        &&& forall|i: int, a: usize|
            0 <= i < before.spec_blocks().len() && before.spec_blocks()[i].owns(a)
                ==> #[trigger] self.spec_blocks()[i].owns(a)
    }

    /// No superblock has changed hands since `before`, and no index of
    /// objects has grown.
    pub open spec fn settled(&self, before: Self) -> bool {
        &&& forall|c: int, t: int|
            0 <= c < before.spec_cpu_node().len() && 0 <= t < NUM_SIZE_CLASS ==> self.preferred(c, t)
                == before.preferred(c, t)
        &&& forall|n: int, t: int|
            0 <= n < before.spec_nodes() && 0 <= t < NUM_SIZE_CLASS ==> self.shared(n, t) == before.shared(n, t)
        &&& forall|n: int| 0 <= n < before.spec_nodes() ==> self.load(n) <= before.load(n)
    }

    /// The heap is anchored in `before` and has no superblock more, and no
    /// cursor has moved.
    pub open spec fn same_layout(&self, before: Self) -> bool {
        &&& self.anchored(before)
        &&& self.spec_blocks().len() == before.spec_blocks().len()
        &&& self.cursors() == before.cursors()
        &&& self.addrs() == before.addrs()
    }

    /// A heap whose superblocks lie where those of `self` lie has its
    /// addresses.
    proof fn lemma_addrs_kept(&self, after: Self)
        requires
            after.blocks@.len() == self.blocks@.len(),
            forall|i: int|
                0 <= i < self.blocks@.len() ==> (#[trigger] after.blocks@[i]).spec_addr()
                    == self.blocks@[i].spec_addr(),
        ensures
            after.addrs() == self.addrs(),
    {
        assert(after.addrs() =~= self.addrs());
    }

    /// A heap whose bump heaps work where those of `self` work has its
    /// regions and cursors.
    proof fn lemma_cursors_kept(&self, after: Self)
        requires
            after.nodes@.len() == self.nodes@.len(),
            forall|n: int|
                0 <= n < self.nodes@.len() ==> (#[trigger] after.nodes@[n]).bump_allocator.spec_base()
                    == self.nodes@[n].bump_allocator.spec_base() && after.nodes@[n].bump_allocator.spec_tail()
                    == self.nodes@[n].bump_allocator.spec_tail(),
        ensures
            after.regions() == self.regions(),
            after.cursors() == self.cursors(),
    {
        assert(after.regions() =~= self.regions());
        assert(after.cursors() =~= self.cursors());
    }

    /// An address lies in the data region of at most one superblock.
    pub proof fn lemma_one_superblock(&self, addr: usize, i: int, j: int)
        requires
            self.wf(),
            0 <= i < self.spec_blocks().len(),
            0 <= j < self.spec_blocks().len(),
            self.spec_blocks()[i].in_data(addr),
            self.spec_blocks()[j].in_data(addr),
        ensures
            i == j,
    {
        self.blocks@[i].lemma_place();
        self.blocks@[j].lemma_place();
        if i != j {
            assert(apart(self.addrs()[i], SUPERBLOCK_CHUNK, self.addrs()[j], SUPERBLOCK_CHUNK));
        }
    }

    /// Every superblock serves one of the small classes with objects of that
    /// class's size, which is two to the power of the class plus one.
    pub proof fn lemma_block_sizes(&self, i: int)
        requires
            self.wf(),
            0 <= i < self.spec_blocks().len(),
        ensures
            self.spec_blocks()[i].spec_tier() < NUM_SIZE_CLASS,
            self.spec_blocks()[i].spec_size() == pow2((self.spec_blocks()[i].spec_tier() + 1) as nat),
            self.spec_blocks()[i].spec_numa() < self.spec_nodes(),
    {
        self.blocks@[i].lemma_place();
    }

    /// A heap for processors on the given nodes, `cpu_nodes[c]` being the
    /// node of processor `c`; the bump heap of node `n` starts in the region
    /// at `regions[n]`.
    pub fn new(cpu_nodes: &Vec<u16>, regions: &Vec<usize>, page_size: usize) -> (r: Self)
        requires
            Self::can_make(cpu_nodes@, regions@, page_size),
        ensures
            r.wf(),
            r.spec_nodes() == regions@.len(),
            r.spec_cpu_node() == cpu_nodes@,
            r.spec_blocks().len() == 0,
            forall|n: int| 0 <= n < regions@.len() ==> r.region(n) == regions@[n] && r.cursor(n) == regions@[n],
            r.fresh(),
    {
        let node_count: usize = regions.len();
        // Every node's index of objects keeps shards for the processors of
        // every node.
        let mut node_cpus: Vec<usize> = Vec::new();
        let mut n: usize = 0;
        while n < node_count
            invariant
                0 <= n <= node_count,
                node_cpus@.len() == n,
            decreases node_count - n,
        {
            node_cpus.push(count_cpus(cpu_nodes, n as u16));
            n = n + 1;
        }
        let mut nodes: NodeList = nodes_new();
        let mut i: usize = 0;
        while i < node_count
            invariant
                0 <= i <= node_count,
                node_count == regions@.len(),
                node_count <= u16::MAX,
                node_cpus@.len() == node_count,
                nodes@.len() == i,
                2 <= page_size <= HEAP_VIRT_SIZE,
                is_pow2(page_size as nat),
                forall|k: int| 0 <= k < regions@.len() ==> region_ok(#[trigger] regions@[k]),
                forall|k: int|
                    0 <= k < i ==> {
                        let node = #[trigger] nodes@[k];
                        &&& node.node_ok(k, node_count as nat)
                        &&& node.bump_allocator.spec_base() == regions@[k]
                        &&& node.bump_allocator.spec_tail() == regions@[k]
                        &&& forall|p: (usize, usize)| !node.objects.knows(p)
                        &&& node.objects.spec_load() == 0
                        &&& node.pending_free@.len() == 0
                        &&& forall|t: int|
                            0 <= t < NUM_SIZE_CLASS ==> (#[trigger] node.size_class_list@[t]).handles().len() == 0
                    },
            decreases node_count - i,
        {
            nodes_push(
                &mut nodes,
                NodeMeta {
                    size_class_list: size_classes(0, i as u16),
                    bump_allocator: AllocatorInstance::new(regions[i], page_size),
                    pending_free: WordList::new(),
                    objects: EvMap::new(&node_cpus),
                },
            );
            i = i + 1;
        }
        let mut cpus: CoreList = cores_new();
        let mut cpu_node: Vec<u16> = Vec::new();
        let mut c: usize = 0;
        while c < cpu_nodes.len()
            invariant
                0 <= c <= cpu_nodes@.len(),
                cpu_nodes@.len() <= u16::MAX,
                cpus@.len() == c,
                cpu_node@ == cpu_nodes@.take(c as int),
                forall|k: int|
                    0 <= k < c ==> classes_ok(
                        (#[trigger] cpus@[k]).size_class_list@,
                        k as u16,
                        cpu_nodes@[k],
                    ),
                forall|k: int, t: int|
                    0 <= k < c && 0 <= t < NUM_SIZE_CLASS ==> (#[trigger] cpus@[k].size_class_list@[t]).handles().len()
                        == 0,
            decreases cpu_nodes@.len() - c,
        {
            cores_push(&mut cpus, CoreMeta { size_class_list: size_classes(c as u16, cpu_nodes[c]) });
            cpu_node.push(cpu_nodes[c]);
            proof {
                assert(cpu_node@ =~= cpu_nodes@.take(c as int + 1));
            }
            c = c + 1;
        }
        proof {
            assert(cpu_nodes@.take(cpu_nodes@.len() as int) =~= cpu_nodes@);
        }
        let r = Self { nodes, cpus, cpu_node, blocks: Vec::new() };
        proof {
            assert(r.regions() =~= regions@);
            assert(r.cursors() =~= regions@);
            assert(r.addrs() =~= Seq::<usize>::empty());
            assert forall|n: int| 0 <= n < r.spec_nodes() implies (#[trigger] r.pending(n)).len() == 0
                && r.load(n) == 0 by {
                assert(r.nodes@[n].objects.spec_load() == 0);
            }
            assert forall|n: int, t: int| 0 <= n < r.spec_nodes() && 0 <= t < NUM_SIZE_CLASS implies (
            #[trigger] r.shared(n, t)).len() == 0 by {
                assert(r.nodes@[n].objects.spec_load() == 0);
                assert(r.nodes@[n].size_class_list@[t].handles().len() == 0);
            }
        }
        r
    }

    /// The heap is as it was made: no free waits, no superblock is preferred
    /// or pooled, and every index of objects is empty.
    pub open spec fn fresh(&self) -> bool {
        &&& forall|n: int| 0 <= n < self.spec_nodes() ==> (#[trigger] self.pending(n)).len() == 0
        &&& forall|n: int| 0 <= n < self.spec_nodes() ==> #[trigger] self.load(n) == 0
        &&& forall|n: int, t: int|
            0 <= n < self.spec_nodes() && 0 <= t < NUM_SIZE_CLASS ==> (#[trigger] self.shared(n, t)).len() == 0
        &&& forall|c: int, t: int|
            0 <= c < self.spec_cpu_node().len() && 0 <= t < NUM_SIZE_CLASS ==> (#[trigger] self.preferred(
                c,
                t,
            )).len() == 0
    }

    /// What `new` asks of its arguments.
    pub open spec fn can_make(cpu_nodes: Seq<u16>, regions: Seq<usize>, page_size: usize) -> bool {
        &&& 0 < regions.len() <= u16::MAX
        &&& cpu_nodes.len() <= u16::MAX
        &&& forall|c: int| 0 <= c < cpu_nodes.len() ==> (#[trigger] cpu_nodes[c]) < regions.len()
        &&& forall|n: int| 0 <= n < regions.len() ==> region_ok(#[trigger] regions[n])
        &&& forall|n: int, m: int|
            0 <= n < regions.len() && 0 <= m < regions.len() && n != m ==> apart(
                #[trigger] regions[n],
                HEAP_VIRT_SIZE,
                #[trigger] regions[m],
                HEAP_VIRT_SIZE,
            )
        &&& 2 <= page_size <= HEAP_VIRT_SIZE
        &&& is_pow2(page_size as nat)
    }

    /// Whether `new` can make a heap of the arguments: every processor lies
    /// on one of the nodes, the regions can be used and do not overlap, and
    /// the page size is a power of two that a region holds.
    pub fn check_arguments(cpu_nodes: &Vec<u16>, regions: &Vec<usize>, page_size: usize) -> (r: bool)
        ensures
            r == Self::can_make(cpu_nodes@, regions@, page_size),
    {
        if regions.len() == 0 || regions.len() > 65535 || cpu_nodes.len() > 65535 || page_size < 2
            || page_size > HEAP_VIRT_SIZE || !crate::utils::is_power_of_2(page_size) {
            return false;
        }
        let mut c: usize = 0;
        while c < cpu_nodes.len()
            invariant
                0 <= c <= cpu_nodes@.len(),
                forall|k: int| 0 <= k < c ==> (#[trigger] cpu_nodes@[k]) < regions@.len(),
            decreases cpu_nodes@.len() - c,
        {
            if cpu_nodes[c] as usize >= regions.len() {
                return false;
            }
            c = c + 1;
        }
        let mut n: usize = 0;
        while n < regions.len()
            invariant
                0 <= n <= regions@.len(),
                forall|k: int| 0 <= k < n ==> region_ok(#[trigger] regions@[k]),
                forall|k: int, m: int|
                    0 <= k < n && 0 <= m < n && k != m ==> apart(
                        #[trigger] regions@[k],
                        HEAP_VIRT_SIZE,
                        #[trigger] regions@[m],
                        HEAP_VIRT_SIZE,
                    ),
            decreases regions@.len() - n,
        {
            let base: usize = regions[n];
            if base < 2 || base > PRIME_FLAG - HEAP_VIRT_SIZE || base % CACHE_LINE_SIZE != 0 {
                return false;
            }
            let mut m: usize = 0;
            while m < n
                invariant
                    0 <= m <= n,
                    n < regions@.len(),
                    base == regions@[n as int],
                    region_ok(base),
                    forall|k: int| 0 <= k < n ==> region_ok(#[trigger] regions@[k]),
                    forall|k: int|
                        0 <= k < m ==> apart(
                            #[trigger] regions@[k],
                            HEAP_VIRT_SIZE,
                            base,
                            HEAP_VIRT_SIZE,
                        ),
                decreases n - m,
            {
                let other: usize = regions[m];
                if !(other + HEAP_VIRT_SIZE <= base || base + HEAP_VIRT_SIZE <= other) {
                    return false;
                }
                m = m + 1;
            }
            n = n + 1;
        }
        true
    }

    /// A heap made as `new` makes it, or nothing where the arguments are not
    /// what `new` asks for.
    pub fn try_new(cpu_nodes: &Vec<u16>, regions: &Vec<usize>, page_size: usize) -> (r: Option<Self>)
        ensures
            (r is Some) == Self::can_make(cpu_nodes@, regions@, page_size),
            r matches Some(heap) ==> {
                &&& heap.wf()
                &&& heap.spec_nodes() == regions@.len()
                &&& heap.spec_cpu_node() == cpu_nodes@
                &&& heap.spec_blocks().len() == 0
                &&& forall|n: int|
                    0 <= n < regions@.len() ==> heap.region(n) == regions@[n] && heap.cursor(n)
                        == regions@[n]
                &&& heap.fresh()
            },
    {
        if Self::check_arguments(cpu_nodes, regions, page_size) {
            Some(Self::new(cpu_nodes, regions, page_size))
        } else {
            None
        }
    }

    /// The number of nodes.
    pub fn node_count(&self) -> (r: usize)
        requires
            self.wf(),
        ensures
            r == self.spec_nodes(),
    {
        nodes_len(&self.nodes)
    }

    /// The number of superblocks.
    pub fn block_count(&self) -> (r: usize)
        requires
            self.wf(),
        ensures
            r == self.spec_blocks().len(),
    {
        self.blocks.len()
    }

    /// The node of a processor of the heap is one of its nodes.
    pub proof fn lemma_knows_node(&self, meta: ThreadMeta)
        requires
            self.wf(),
            self.knows(meta),
        ensures
            meta.numa < self.spec_nodes(),
            0 < self.spec_nodes() <= u16::MAX,
    {
    }

    /// The place of a thread that runs on processor `cpu_id`, if the heap has
    /// such a processor.
    pub fn thread_meta(&self, cpu_id: u16) -> (r: Option<ThreadMeta>)
        requires
            self.wf(),
        ensures
            cpu_id < self.spec_cpu_node().len() ==> r == Some(
                ThreadMeta { numa: self.spec_cpu_node()[cpu_id as int], cpu: cpu_id },
            ),
            cpu_id >= self.spec_cpu_node().len() ==> r is None,
            r matches Some(meta) ==> self.knows(meta),
            r matches Some(meta) ==> meta.numa < self.spec_nodes(),
    {
        if (cpu_id as usize) < self.cpu_node.len() {
            Some(ThreadMeta::new(cpu_id, self.cpu_node[cpu_id as usize]))
        } else {
            None
        }
    }

    /// The region that the bump heap of node `numa` works in.
    pub fn region_of(&self, numa: u16) -> (r: usize)
        requires
            self.wf(),
            numa < self.spec_nodes(),
        ensures
            r == self.region(numa as int),
    {
        node_at(&self.nodes, numa as usize).bump_allocator.base()
    }

    /// No superblock lies in the region at `base`, and no node but `numa`
    /// works in a region that overlaps it.
    pub open spec fn region_is_free(&self, numa: int, base: usize) -> bool {
        &&& forall|i: int|
            0 <= i < self.addrs().len() ==> apart(
                #[trigger] self.addrs()[i],
                SUPERBLOCK_CHUNK,
                base,
                HEAP_VIRT_SIZE,
            )
        &&& forall|n: int|
            0 <= n < self.regions().len() && n != numa ==> apart(
                #[trigger] self.regions()[n],
                HEAP_VIRT_SIZE,
                base,
                HEAP_VIRT_SIZE,
            )
    }

    /// Whether no superblock lies in the region at `base`, and no node but
    /// `numa` works in a region that overlaps it.
    pub fn is_region_free(&self, numa: u16, base: usize) -> (r: bool)
        requires
            self.wf(),
            region_ok(base),
        ensures
            r == self.region_is_free(numa as int, base),
    {
        let mut i: usize = 0;
        while i < self.blocks.len()
            invariant
                0 <= i <= self.blocks@.len(),
                self.wf(),
                region_ok(base),
                forall|k: int|
                    0 <= k < i ==> apart(
                        #[trigger] self.addrs()[k],
                        SUPERBLOCK_CHUNK,
                        base,
                        HEAP_VIRT_SIZE,
                    ),
            decreases self.blocks@.len() - i,
        {
            proof {
                self.blocks@[i as int].lemma_place();
            }
            let addr: usize = self.blocks[i].addr;
            proof {
                self.lemma_sequences();
                assert(self.addrs()[i as int] == addr);
            }
            if !(addr + SUPERBLOCK_CHUNK <= base || base + HEAP_VIRT_SIZE <= addr) {
                return false;
            }
            i = i + 1;
        }
        proof {
            self.lemma_sequences();
        }
        let mut n: usize = 0;
        while n < nodes_len(&self.nodes)
            invariant
                0 <= n <= self.nodes@.len(),
                self.wf(),
                region_ok(base),
                forall|k: int|
                    0 <= k < self.addrs().len() ==> apart(
                        #[trigger] self.addrs()[k],
                        SUPERBLOCK_CHUNK,
                        base,
                        HEAP_VIRT_SIZE,
                    ),
                forall|k: int|
                    0 <= k < n && k != numa ==> apart(
                        #[trigger] self.regions()[k],
                        HEAP_VIRT_SIZE,
                        base,
                        HEAP_VIRT_SIZE,
                    ),
            decreases self.nodes@.len() - n,
        {
            if n != numa as usize {
                proof {
                    assert(self.nodes@[n as int].node_ok(n as int, self.nodes@.len()));
                }
                let other: usize = node_at(&self.nodes, n).bump_allocator.base();
                proof {
                    self.lemma_sequences();
                    assert(self.regions()[n as int] == other);
                }
                if !(other + HEAP_VIRT_SIZE <= base || base + HEAP_VIRT_SIZE <= other) {
                    return false;
                }
            }
            n = n + 1;
        }
        true
    }

    /// What `provide_region` makes of the heap `before`, with the result
    /// `r`: the bump heap of node `numa` starts anew in the region at
    /// `new_base` where `old_base` is still its region and the new region is
    /// free, and nothing else changes.
    pub open spec fn provided(&self, before: Self, numa: u16, old_base: usize, new_base: usize, r: bool) -> bool {
        &&& self.anchored_but(before, numa as int)
        &&& self.spec_blocks() == before.spec_blocks()
        &&& self.settled(before)
        &&& r == (before.region(numa as int) == old_base && before.region_is_free(
            numa as int,
            new_base,
        ))
        &&& r ==> self.region(numa as int) == new_base && self.cursor(numa as int)
            == new_base
        &&& !r ==> self.region(numa as int) == before.region(numa as int) && self.cursor(numa as int) == before.cursor(numa as int)
    }

    /// Moves the bump heap of node `numa` to the region at `new_base`, if
    /// `old_base` is still its region and the new region is free.  Returns
    /// whether it did; where it did not, the new region is the caller's to
    /// release.
    pub fn provide_region(&mut self, numa: u16, old_base: usize, new_base: usize) -> (r: bool)
        requires
            old(self).wf(),
            numa < old(self).spec_nodes(),
            region_ok(new_base),
        ensures
            final(self).wf(),
            final(self).provided(*old(self), numa, old_base, new_base, r),
    {
        proof {
            assert(self.nodes@[numa as int].node_ok(numa as int, self.nodes@.len()));
        }
        if !self.is_region_free(numa, new_base) {
            return false;
        }
        let r = node_mut(&mut self.nodes, numa as usize).bump_allocator.swap_memory(old_base, new_base);
        proof {
            old(self).lemma_books_kept(*self);
            old(self).lemma_addrs_kept(*self);
            if r {
                lemma_layout_moved(
                    old(self).addrs(),
                    old(self).regions(),
                    old(self).cursors(),
                    numa as int,
                    new_base,
                );
                assert(self.regions() =~= old(self).regions().update(numa as int, new_base));
                assert(self.cursors() =~= old(self).cursors().update(numa as int, new_base));
            } else {
                old(self).lemma_cursors_kept(*self);
            }
        }
        r
    }

    /// The heap has the nodes and processors of `before`; the regions and
    /// cursors of all nodes but `numa` are those of `before`, and so are all
    /// queues and indexes.
    pub open spec fn anchored_but(&self, before: Self, numa: int) -> bool {
        &&& self.spec_nodes() == before.spec_nodes()
        &&& self.spec_cpu_node() == before.spec_cpu_node()
        &&& self.regions().len() == before.regions().len()
        &&& self.cursors().len() == before.cursors().len()
        &&& forall|n: int|
            0 <= n < before.spec_nodes() && n != numa ==> self.region(n) == before.region(n)
                && self.cursor(n) == before.cursor(n)
        &&& forall|n: int| 0 <= n < before.spec_nodes() ==> self.pending(n) == before.pending(n)
        &&& forall|n: int| 0 <= n < before.spec_nodes() ==> self.objects(n) == before.objects(n)
    }

    /// The number of entries that the index of objects of node `numa` holds
    /// or has waiting in its shards.
    pub closed spec fn load(&self, numa: int) -> nat {
        self.nodes@[numa].objects.spec_load()
    }

    /// The index of objects of node `numa` can take no further object.
    pub open spec fn index_full(&self, numa: int) -> bool {
        self.load(numa) >= MAX_CAPACITY
    }

    /// The indexes of objects have the entries of `before` and one more for
    /// an object that superblock `i` handed out for the first time.
    pub open spec fn counted(&self, before: Self, i: int, g: Grant) -> bool {
        forall|n: int|
            0 <= n < before.spec_nodes() ==> #[trigger] self.load(n) == before.load(n) + (if g is Fresh && n
                == self.spec_blocks()[i].spec_numa() {
                1nat
            } else {
                0nat
            })
    }

    /// Superblock `i` can hand out an object: it has a freed address, or it
    /// has room at its cursor and the index of objects of its node can take
    /// the entry that an address handed out for the first time needs.
    pub open spec fn has_stock(&self, i: int) -> bool {
        match spec_grant(
            self.spec_blocks()[i].free(),
            self.spec_blocks()[i].spec_data_base(),
            self.spec_blocks()[i].spec_reservation(),
        ) {
            Some(Grant::Reused(_)) => true,
            Some(Grant::Fresh(_)) => !self.index_full(self.spec_blocks()[i].spec_numa() as int),
            None => false,
        }
    }

    /// `handle` names a superblock of class `tier` and of node `numa`.
    pub open spec fn fits(&self, handle: usize, tier: int, numa: int) -> bool {
        &&& self.named(handle) is Some
        &&& self.spec_blocks()[self.named(handle).unwrap()].spec_tier() == tier
        &&& self.spec_blocks()[self.named(handle).unwrap()].spec_numa() == numa
    }

    /// `handle` names a superblock of class `tier` and of node `numa` that
    /// can hand out an object.
    pub open spec fn can_serve(&self, handle: usize, tier: int, numa: int) -> bool {
        &&& self.fits(handle, tier, numa)
        &&& self.has_stock(self.named(handle).unwrap())
    }

    /// Among the superblocks that processor `cpu` prefers for class `tier`,
    /// the one at position `k` is the newest that can hand out an object.
    pub open spec fn first_choice(&self, cpu: int, tier: int, k: int) -> bool {
        &&& 0 <= k < self.preferred(cpu, tier).len()
        &&& self.can_serve(self.preferred(cpu, tier)[k], tier, self.spec_cpu_node()[cpu] as int)
        &&& forall|m: int|
            k < m < self.preferred(cpu, tier).len() ==> !self.can_serve(
                #[trigger] self.preferred(cpu, tier)[m],
                tier,
                self.spec_cpu_node()[cpu] as int,
            )
    }

    /// Among the superblocks in the pool of node `numa` for class `tier`, the
    /// one at position `k` is the newest that can hand out an object.
    pub open spec fn pool_choice(&self, numa: int, tier: int, k: int) -> bool {
        &&& 0 <= k < self.shared(numa, tier).len()
        &&& self.can_serve(self.shared(numa, tier)[k], tier, numa)
        &&& forall|m: int|
            k < m < self.shared(numa, tier).len() ==> !self.can_serve(
                #[trigger] self.shared(numa, tier)[m],
                tier,
                numa,
            )
    }

    /// The request was served with what the superblock that `handle` named
    /// in `before` had to hand out next.
    pub open spec fn took(
        &self,
        before: Self,
        size: usize,
        meta: ThreadMeta,
        handle: usize,
        r: AllocResult,
    ) -> bool {
        &&& r == AllocResult::Allocated(grant_addr(before.next_of(handle)))
        &&& self.served(
            before,
            size,
            grant_addr(before.next_of(handle)),
            before.named(handle).unwrap(),
            before.next_of(handle),
        )
        &&& self.counted(before, before.named(handle).unwrap(), before.next_of(handle))
        &&& self.spec_blocks()[before.named(handle).unwrap()].spec_numa() == meta.numa
    }

    /// What `serve` does where no superblock of `before` could serve the
    /// request: it carves a new superblock at the cursor of the node's bump
    /// heap and hands out its first object; it asks for a region where the
    /// bump heap has not the room; and it gives up where the arena of
    /// superblocks, the node's index of objects or the processor's list can
    /// take no more.  The processor has then adopted the whole pool, and
    /// prefers the new superblock to it.
    pub open spec fn carved(&self, before: Self, size: usize, meta: ThreadMeta, r: AllocResult) -> bool {
        let numa = meta.numa as int;
        let tier = size_class_index(size as nat) as int;
        let room = before.cursor(numa) + SUPERBLOCK_CHUNK <= before.region(numa) + HEAP_VIRT_SIZE;
        &&& before.spec_blocks().len() >= MAX_CAPACITY || before.index_full(numa) ==> r is Exhausted
        &&& r is Exhausted ==> before.spec_blocks().len() >= MAX_CAPACITY || before.index_full(numa)
            || before.preferred(meta.cpu as int, tier).len() + before.shared(numa, tier).len() >= usize::MAX
        &&& r is NeedRegion ==> !room
        &&& r matches AllocResult::Allocated(a) ==> {
            &&& room
            &&& a == before.cursor(numa) + SUPERBLOCK_HEADER
            &&& self.cursor(numa) == before.cursor(numa) + SUPERBLOCK_CHUNK
            &&& self.served(before, size, a, before.spec_blocks().len() as int, Grant::Fresh(a))
            &&& self.counted(before, before.spec_blocks().len() as int, Grant::Fresh(a))
            &&& self.on_top(meta, tier, (before.spec_blocks().len() + HANDLE_BASE) as usize)
            &&& self.spec_blocks()[before.spec_blocks().len() as int].spec_numa() == meta.numa
        }
        &&& self.shared(numa, tier) == Seq::<usize>::empty()
        &&& before.preferred(meta.cpu as int, tier).len() + before.shared(numa, tier).len() <= usize::MAX
            ==> self.preferred(meta.cpu as int, tier) == before.preferred(meta.cpu as int, tier)
            + before.adoptable(before.shared(numa, tier).reverse(), tier, numa) + (if r is Allocated {
            seq![(before.spec_blocks().len() + HANDLE_BASE) as usize]
        } else {
            Seq::<usize>::empty()
        })
    }

    /// The superblock that `handle` names is the newest that the processor of
    /// `meta` prefers for class `tier`, and that processor is the one that
    /// prefers it.
    pub open spec fn on_top(&self, meta: ThreadMeta, tier: int, handle: usize) -> bool {
        &&& self.named(handle) is Some
        &&& self.spec_blocks()[self.named(handle).unwrap()].spec_cpu() == meta.cpu
        &&& self.preferred(meta.cpu as int, tier).len() > 0
        &&& self.preferred(meta.cpu as int, tier).last() == handle
    }

    /// The handles among `popped` that name a superblock of class `tier` and
    /// of node `numa`, in their order: those that a processor of the node
    /// adopts when they come off the pool.
    pub open spec fn adoptable(&self, popped: Seq<usize>, tier: int, numa: int) -> Seq<usize>
        decreases popped.len(),
    {
        if popped.len() == 0 {
            Seq::empty()
        } else if self.fits(popped.last(), tier, numa) {
            self.adoptable(popped.drop_last(), tier, numa).push(popped.last())
        } else {
            self.adoptable(popped.drop_last(), tier, numa)
        }
    }

    /// The lists of superblocks other than the list that processor `cpu`
    /// keeps for class `tier` and the pool that node `numa` keeps for it are
    /// those of `before`.
    pub open spec fn other_lists_kept(&self, before: Self, cpu: int, numa: int, tier: int) -> bool {
        &&& forall|c: int, t: int|
            0 <= c < before.spec_cpu_node().len() && 0 <= t < NUM_SIZE_CLASS && !(c == cpu && t == tier)
                ==> self.preferred(c, t) == before.preferred(c, t)
        &&& forall|n: int, t: int|
            0 <= n < before.spec_nodes() && 0 <= t < NUM_SIZE_CLASS && !(n == numa && t == tier) ==> self.shared(
                n,
                t,
            ) == before.shared(n, t)
    }

    /// Which superblock `serve` takes the object from: the newest of those
    /// that the processor prefers for the class and that can hand one out;
    /// where there is none, the newest such in the pool of the node, which
    /// leaves the pool together with those above it and becomes the newest
    /// that the processor prefers; where there is none either, a new one.
    pub open spec fn chosen(&self, before: Self, size: usize, meta: ThreadMeta, r: AllocResult) -> bool {
        let cpu = meta.cpu as int;
        let numa = meta.numa as int;
        let tier = size_class_index(size as nat) as int;
        let none_preferred = forall|c: int| !#[trigger] before.first_choice(cpu, tier, c);
        let none_pooled = forall|c: int| !#[trigger] before.pool_choice(numa, tier, c);
        &&& forall|k: int| #[trigger]
            before.first_choice(cpu, tier, k) ==> {
                &&& self.took(before, size, meta, before.preferred(cpu, tier)[k], r)
                &&& self.preferred(cpu, tier) == before.preferred(cpu, tier)
                &&& self.shared(numa, tier) == before.shared(numa, tier)
            }
        &&& none_preferred ==> forall|k: int| #[trigger]
            before.pool_choice(numa, tier, k) ==> {
                &&& self.took(before, size, meta, before.shared(numa, tier)[k], r)
                &&& self.shared(numa, tier) == before.shared(numa, tier).take(k)
                &&& self.preferred(cpu, tier).len() < usize::MAX ==> self.on_top(
                    meta,
                    tier,
                    before.shared(numa, tier)[k],
                )
                &&& before.preferred(cpu, tier).len() + before.shared(numa, tier).len() <= usize::MAX
                    ==> self.preferred(cpu, tier) == before.preferred(cpu, tier) + before.adoptable(
                    before.shared(numa, tier).skip(k).reverse(),
                    tier,
                    numa,
                )
            }
        &&& none_preferred && none_pooled ==> self.carved(before, size, meta, r)
        &&& self.other_lists_kept(before, cpu, numa, tier)
        &&& self.tagged(before, meta, tier)
    }

    /// The processor of `meta` is the one that prefers every superblock that
    /// its list for class `tier` has gained since `before`, and every other
    /// superblock is preferred by the processor that preferred it.
    pub open spec fn tagged(&self, before: Self, meta: ThreadMeta, tier: int) -> bool {
        let cpu = meta.cpu as int;
        let kept = before.preferred(cpu, tier).len();
        &&& forall|k: int|
            kept <= k < self.preferred(cpu, tier).len() ==> self.named(
                #[trigger] self.preferred(cpu, tier)[k],
            ) is Some && self.spec_blocks()[self.named(self.preferred(cpu, tier)[k]).unwrap()].spec_cpu()
                == meta.cpu
        &&& forall|j: int|
            0 <= j < before.spec_blocks().len() && self.gained(before, cpu, tier, j) == false ==> (
            #[trigger] self.spec_blocks()[j]).spec_cpu() == before.spec_blocks()[j].spec_cpu()
    }

    /// One more handle on the list of the processor of `meta`, whose
    /// superblock the processor then prefers, keeps the superblocks tagged.
    proof fn lemma_tagged_step(
        &self,
        prev: Self,
        base: Self,
        meta: ThreadMeta,
        tier: int,
        index: int,
        handle: usize,
    )
        requires
            prev.tagged(base, meta, tier),
            base.preferred(meta.cpu as int, tier).len() <= prev.preferred(meta.cpu as int, tier).len(),
            base.spec_blocks().len() <= prev.spec_blocks().len() <= self.spec_blocks().len(),
            0 <= index < self.spec_blocks().len(),
            handle == index + HANDLE_BASE,
            forall|j: int|
                0 <= j < prev.spec_blocks().len() && j != index ==> (#[trigger] self.spec_blocks()[j]).spec_cpu()
                    == prev.spec_blocks()[j].spec_cpu(),
            (self.preferred(meta.cpu as int, tier) == prev.preferred(meta.cpu as int, tier).push(handle)
                && self.spec_blocks()[index].spec_cpu() == meta.cpu) || (self.preferred(meta.cpu as int, tier)
                == prev.preferred(meta.cpu as int, tier) && index < prev.spec_blocks().len()
                && self.spec_blocks()[index].spec_cpu() == prev.spec_blocks()[index].spec_cpu()),
        ensures
            self.tagged(base, meta, tier),
            base.preferred(meta.cpu as int, tier).len() <= self.preferred(meta.cpu as int, tier).len(),
    {
        let cpu = meta.cpu as int;
        let kept = base.preferred(cpu, tier).len();
        let now = self.preferred(cpu, tier);
        let was = prev.preferred(cpu, tier);
        assert forall|k: int| kept <= k < now.len() implies self.named(#[trigger] now[k]) is Some
            && self.spec_blocks()[self.named(now[k]).unwrap()].spec_cpu() == meta.cpu by {
            if k < was.len() {
                assert(now[k] == was[k]);
                assert(prev.named(was[k]) is Some);
            }
        }
        assert forall|j: int|
            0 <= j < base.spec_blocks().len() && self.gained(base, cpu, tier, j) == false implies (
        #[trigger] self.spec_blocks()[j]).spec_cpu() == base.spec_blocks()[j].spec_cpu() by {
            if prev.gained(base, cpu, tier, j) {
                let k = choose|k: int| kept <= k < was.len() && #[trigger] was[k] == j + HANDLE_BASE;
                assert(now[k] == was[k]);
            }
            if j == index && now.len() > was.len() {
                assert(now[was.len() as int] == handle);
            }
        }
    }

    /// The list of processor `cpu` for class `tier` has gained the handle of
    /// superblock `j` since `before`.
    pub open spec fn gained(&self, before: Self, cpu: int, tier: int, j: int) -> bool {
        exists|k: int|
            before.preferred(cpu, tier).len() <= k < self.preferred(cpu, tier).len() && #[trigger] self.preferred(
                cpu,
                tier,
            )[k] == j + HANDLE_BASE
    }

    /// What the superblock that `handle` names hands out next.
    pub open spec fn next_of(&self, handle: usize) -> Grant {
        let i = self.named(handle).unwrap();
        spec_grant(
            self.spec_blocks()[i].free(),
            self.spec_blocks()[i].spec_data_base(),
            self.spec_blocks()[i].spec_reservation(),
        ).unwrap()
    }

    /// The arena index that `handle` names, if it names one.
    fn index_of(&self, handle: usize) -> (r: Option<usize>)
        ensures
            r matches Some(i) ==> self.named(handle) == Some(i as int),
            r is None ==> self.named(handle) is None,
    {
        if handle >= HANDLE_BASE && handle - HANDLE_BASE < self.blocks.len() {
            Some(handle - HANDLE_BASE)
        } else {
            None
        }
    }

    /// Lets superblock `index` hand out an object for a thread at `meta`, and
    /// enters an address that is handed out for the first time into the index
    /// of objects of the superblock's node, by way of the shard of the
    /// thread's processor.
    fn allocate_from(&mut self, index: usize, meta: ThreadMeta) -> (r: Option<usize>)
        requires
            old(self).wf(),
            old(self).knows(meta),
            index < old(self).spec_blocks().len(),
        ensures
            final(self).wf(),
            final(self).same_layout(*old(self)),
            r matches Some(a) ==> final(self).spec_blocks()[index as int].owns(a),
            r matches Some(a) ==> exists|g: Grant|
                grant_addr(g) == a && #[trigger] final(self).spec_blocks()[index as int].granted_from(
                    old(self).spec_blocks()[index as int],
                    g,
                ),
            forall|j: int|
                0 <= j < old(self).spec_blocks().len() && (j != index || r is None) ==> (
                #[trigger] final(self).spec_blocks()[j]).same_stock(old(self).spec_blocks()[j]),
            (r is Some) == old(self).has_stock(index as int),
            forall|c: int, t: int|
                0 <= c < old(self).spec_cpu_node().len() && 0 <= t < NUM_SIZE_CLASS ==> final(self).preferred(c, t)
                    == old(self).preferred(c, t),
            forall|j: int|
                0 <= j < old(self).spec_blocks().len() ==> (#[trigger] final(self).spec_blocks()[j]).spec_cpu()
                    == old(self).spec_blocks()[j].spec_cpu(),
            r is None ==> forall|n: int| 0 <= n < old(self).spec_nodes() ==> final(self).load(n) == old(self).load(n),
            r is Some ==> final(self).counted(*old(self), index as int, old(self).next_of((index + HANDLE_BASE) as usize)),
            forall|n: int| 0 <= n < old(self).spec_nodes() ==> final(self).pending(n) == old(self).pending(n),
            forall|n: int, t: int|
                0 <= n < old(self).spec_nodes() && 0 <= t < NUM_SIZE_CLASS ==> final(self).shared(n, t)
                    == old(self).shared(n, t),
    {
        let node: u16 = self.blocks[index].numa();
        proof {
            assert(self.nodes@[node as int].node_ok(node as int, self.nodes@.len()));
            assert(self.blocks@[index as int].wf());
        }
        if self.blocks[index].free_list.count() == 0 && node_at(&self.nodes, node as usize).objects.load()
            >= MAX_CAPACITY {
            // The index of objects is full, and an address that is handed out
            // for the first time needs an entry: the superblock is passed
            // over.
            return None;
        }
        let handle: usize = index + HANDLE_BASE;
        let granted = self.blocks[index].allocate();
        proof {
            if granted is Some {
                assert(self.spec_blocks()[index as int].granted_from(
                    old(self).spec_blocks()[index as int],
                    granted->Some_0,
                ));
            }
        }
        let r = match granted {
            None => None,
            Some(Grant::Reused(addr)) => Some(addr),
            Some(Grant::Fresh(addr)) => {
                proof {
                    lemma_handle_storable(index);
                }
                node_mut(&mut self.nodes, node as usize).objects.insert_to_cpu(addr, handle, meta.numa, meta.cpu);
                Some(addr)
            },
        };
        proof {
            old(self).lemma_addrs_kept(*self);
            old(self).lemma_cursors_kept(*self);
            let fresh = granted matches Some(Grant::Fresh(_));
            let entry = (grant_addr(granted->Some_0), handle);
            assert forall|n: int, p: (usize, usize)|
                0 <= n < self.spec_nodes() && #[trigger] self.known(n, p) implies handle_owns(
                self.spec_blocks(),
                n,
                p.0,
                p.1,
            ) by {
                if fresh && n == node && p == entry {
                } else {
                    if n != node {
                        assert(self.nodes@[n] == old(self).nodes@[n]);
                    }
                    assert(old(self).known(n, p));
                    let i = p.1 - HANDLE_BASE;
                    assert(old(self).spec_blocks()[i].owns(p.0));
                    if i != index {
                        assert(self.blocks@[i] == old(self).blocks@[i]);
                    }
                }
            }
            assert forall|i: int, a: usize|
                0 <= i < self.spec_blocks().len() && #[trigger] self.spec_blocks()[i].owns(
                    a,
                ) implies self.known(
                self.spec_blocks()[i].spec_numa() as int,
                (a, (i + HANDLE_BASE) as usize),
            ) by {
                if i != index {
                    assert(self.blocks@[i] == old(self).blocks@[i]);
                }
                let home = old(self).blocks@[i].spec_numa() as int;
                if home != node {
                    assert(self.nodes@[home] == old(self).nodes@[home]);
                }
                if i == index && !old(self).spec_blocks()[i].owns(a) {
                    assert(granted == Some(Grant::Fresh(a)));
                } else {
                    assert(old(self).spec_blocks()[i].owns(a));
                    assert(old(self).known(home, (a, (i + HANDLE_BASE) as usize)));
                }
            }
        }
        r
    }

    /// The addresses that wait at node `numa`, in the order in which a drain
    /// applies them.
    pub closed spec fn drain_order(&self, numa: int) -> Seq<usize> {
        self.nodes@[numa].pending_free.spec_drained().map_values(|slot: (usize, ())| slot.0)
    }

    /// A short queue is drained newest address first.
    pub proof fn lemma_drain_order_short(&self, numa: int)
        requires
            self.wf(),
            0 <= numa < self.spec_nodes(),
            self.pending(numa).len() < crate::collections::lflist::POP_THRESHOLD_LIMIT,
        ensures
            self.drain_order(numa) == self.pending(numa).reverse(),
    {
        assert(self.nodes@[numa].node_ok(numa, self.nodes@.len()));
        self.nodes@[numa].pending_free.lemma_drained_short();
    }

    /// The free list of superblock `i` after the frees of `order` were
    /// applied at node `numa` one after the other: an address goes onto the
    /// list where `i` is the superblock of the node that handed it out, and
    /// the list has room.
    pub open spec fn returned(&self, i: int, numa: int, order: Seq<usize>) -> Seq<usize>
        decreases order.len(),
    {
        if order.len() == 0 {
            self.spec_blocks()[i].free()
        } else if self.owner(order.last()) == Some(i) && self.spec_blocks()[i].spec_numa() == numa
            && self.returned(i, numa, order.drop_last()).len() < usize::MAX {
            self.returned(i, numa, order.drop_last()).push(order.last())
        } else {
            self.returned(i, numa, order.drop_last())
        }
    }

    /// The bytes in use of superblock `i` after the frees of `order` were
    /// applied at node `numa` one after the other: the size of an object
    /// less for every address that went onto its free list.
    pub open spec fn in_use_after(&self, i: int, numa: int, order: Seq<usize>) -> u32
        decreases order.len(),
    {
        if order.len() == 0 {
            self.spec_blocks()[i].spec_used()
        } else if self.owner(order.last()) == Some(i) && self.spec_blocks()[i].spec_numa() == numa
            && self.returned(i, numa, order.drop_last()).len() < usize::MAX {
            self.in_use_after(i, numa, order.drop_last()).wrapping_sub(self.spec_blocks()[i].spec_size())
        } else {
            self.in_use_after(i, numa, order.drop_last())
        }
    }

    /// The frees that are applied at one node leave the superblocks of the
    /// other nodes as they are.
    pub proof fn lemma_returned_elsewhere(&self, i: int, numa: int, order: Seq<usize>)
        requires
            self.spec_blocks()[i].spec_numa() != numa,
        ensures
            self.returned(i, numa, order) == self.spec_blocks()[i].free(),
            self.in_use_after(i, numa, order) == self.spec_blocks()[i].spec_used(),
        decreases order.len(),
    {
        if order.len() > 0 {
            self.lemma_returned_elsewhere(i, numa, order.drop_last());
        }
    }

    /// What `drain_pending` does to the heap `before`: the queue of node
    /// `numa` is empty, and every address that waited in it is in the free
    /// list of the superblock of the node that handed it out, provided that
    /// the free list has room: the free lists are what applying the frees in
    /// the order of the drain makes of them.  No superblock changes hands,
    /// and where nothing waited nothing changes.
    pub open spec fn drained(&self, before: Self, numa: int) -> bool {
        &&& self.same_layout(before)
        &&& self.pending(numa) == Seq::<usize>::empty()
        &&& forall|n: int|
            0 <= n < before.spec_nodes() && n != numa ==> self.pending(n) == before.pending(n)
                && self.objects(n) == before.objects(n)
        &&& forall|q: int|
            0 <= q < before.pending(numa).len() ==> self.applied(before, numa, #[trigger] before.pending(
                numa,
            )[q])
        &&& forall|i: int|
            0 <= i < before.spec_blocks().len() ==> (#[trigger] self.spec_blocks()[i]).free().len()
                <= before.spec_blocks()[i].free().len() + before.pending(numa).len()
                && self.spec_blocks()[i].spec_reservation() == before.spec_blocks()[i].spec_reservation()
        &&& self.settled(before)
        &&& before.pending(numa).len() == 0 ==> *self == before
        &&& forall|i: int|
            0 <= i < before.spec_blocks().len() ==> (#[trigger] self.spec_blocks()[i]).free() == before.returned(
                i,
                numa,
                before.drain_order(numa),
            ) && self.spec_blocks()[i].spec_used() == before.in_use_after(i, numa, before.drain_order(numa))
                && self.spec_blocks()[i].spec_cpu() == before.spec_blocks()[i].spec_cpu()
        &&& forall|i: int|
            0 <= i < before.spec_blocks().len() && before.spec_blocks()[i].spec_numa() != numa ==> (
            #[trigger] self.spec_blocks()[i]) == before.spec_blocks()[i]
    }

    /// The free of `addr` that waited at node `numa` has been applied: where
    /// a superblock of the node handed the address out, the address is in
    /// its free list, unless the list is full.
    pub open spec fn applied(&self, before: Self, numa: int, addr: usize) -> bool {
        before.owner(addr) matches Some(i) ==> (before.spec_blocks()[i].spec_numa() == numa
            && self.spec_blocks()[i].free().len() < usize::MAX ==> self.spec_blocks()[i].free().contains(
            addr,
        ))
    }

    /// The free of `addr` has gone to the superblock under which the index
    /// of objects of node `numa` holds the address.
    spec fn applied_by_index(&self, before: Self, numa: int, addr: usize) -> bool {
        self.objects(numa).contains_key(addr) ==> match before.named(self.objects(numa)[addr]) {
            Some(i) => before.spec_blocks()[i].owns(addr) && self.spec_blocks()[i].free().len()
                < usize::MAX ==> self.spec_blocks()[i].free().contains(addr),
            None => true,
        }
    }

    /// Applies the frees that arrived at node `numa` from other nodes: each
    /// address goes back to the superblock under which the node's index of
    /// objects knows it.
    pub fn drain_pending(&mut self, numa: u16)
        requires
            old(self).wf(),
            numa < old(self).spec_nodes(),
        ensures
            final(self).wf(),
            final(self).drained(*old(self), numa as int),
            forall|n: int, t: int|
                0 <= n < old(self).spec_nodes() && 0 <= t < NUM_SIZE_CLASS ==> final(self).shared(n, t)
                    == old(self).shared(n, t),
    {
        proof {
            assert(self.nodes@[numa as int].node_ok(numa as int, self.nodes@.len()));
        }
        if node_at(&self.nodes, numa as usize).pending_free.count() == 0 {
            proof {
                assert(self.pending(numa as int) =~= Seq::<usize>::empty());
                self.lemma_drain_order_short(numa as int);
                assert(self.pending(numa as int).reverse() =~= Seq::<usize>::empty());
            }
            return ;
        }
        let ghost waiting = self.nodes@[numa as int].pending_free;
        node_mut(&mut self.nodes, numa as usize).objects.refresh(0);
        let items = node_mut(&mut self.nodes, numa as usize).pending_free.drop_out_all();
        let ghost nodes1 = self.nodes@;
        let ghost index = self.nodes@[numa as int].objects.contents();
        proof {
            old(self).lemma_addrs_kept(*self);
            old(self).lemma_cursors_kept(*self);
            old(self).lemma_books_refreshed(*self, numa as int);
        }
        let ghost order = items@.map_values(|slot: (usize, ())| slot.0);
        proof {
            assert(order.take(0) =~= Seq::<usize>::empty());
        }
        let mut k: usize = 0;
        while k < items.len()
            invariant
                0 <= k <= items@.len(),
                self.wf(),
                old(self).wf(),
                self.up_to_date(numa as int),
                numa < self.spec_nodes(),
                self.nodes@ == nodes1,
                index == self.objects(numa as int),
                self.same_layout(*old(self)),
                self.cpus@ == old(self).cpus@,
                waiting@.len() > 0,
                forall|j: int|
                    0 <= j < k ==> self.applied_by_index(*old(self), numa as int, (#[trigger] items@[j]).0),
                forall|i: int, a: usize|
                    0 <= i < self.blocks@.len() && old(self).blocks@[i].free().contains(a)
                        ==> #[trigger] self.blocks@[i].free().contains(a),
                forall|i: int|
                    0 <= i < self.blocks@.len() ==> (#[trigger] self.blocks@[i]).free().len() <= old(self).blocks@[i].free().len() + k
                        && self.blocks@[i].spec_reservation() == old(self).blocks@[i].spec_reservation(),
                items@.len() == old(self).pending(numa as int).len(),
                order == items@.map_values(|slot: (usize, ())| slot.0),
                forall|i: int|
                    0 <= i < self.blocks@.len() ==> (#[trigger] self.blocks@[i]).free() == old(self).returned(
                        i,
                        numa as int,
                        order.take(k as int),
                    ),
                forall|i: int|
                    0 <= i < self.blocks@.len() ==> (#[trigger] self.blocks@[i]).spec_used() == old(self).in_use_after(i, numa as int, order.take(k as int)) && self.blocks@[i].spec_cpu() == old(self).blocks@[i].spec_cpu(),
                forall|i: int|
                    0 <= i < self.blocks@.len() && old(self).blocks@[i].spec_numa() != numa ==> (
                    #[trigger] self.blocks@[i]) == old(self).blocks@[i],
            decreases items@.len() - k,
        {
            let addr: usize = items[k].0;
            proof {
                assert(self.nodes@[numa as int].node_ok(numa as int, self.nodes@.len()));
            }
            let ghost blocks0 = self.blocks@;
            let ghost start = *self;
            let ghost taken = order.take(k as int + 1);
            proof {
                assert(taken.drop_last() =~= order.take(k as int));
                assert(taken.last() == addr);
                // The index of the node holds the address of every object of
                // the node, under the handle of its superblock.
                if old(self).owner(addr) is Some {
                    let o = old(self).owner(addr)->Some_0;
                    if old(self).spec_blocks()[o].spec_numa() == numa {
                        assert(old(self).spec_blocks()[o].owns(addr));
                        assert(start.spec_blocks()[o].owns(addr));
                        assert(start.known(numa as int, (addr, (o + HANDLE_BASE) as usize)));
                        assert(index.contains_key(addr) && index[addr] == o + HANDLE_BASE);
                    }
                }
                if index.contains_key(addr) {
                    start.lemma_found(numa as int, addr, index[addr]);
                    start.lemma_objects_known(numa as int, addr);
                    assert(handle_owns(start.spec_blocks(), numa as int, addr, index[addr]));
                    let o = index[addr] - HANDLE_BASE;
                    old(self).blocks@[o].lemma_place();
                    start.blocks@[o].lemma_place();
                    assert(start.spec_blocks()[o].same_place(old(self).spec_blocks()[o]));
                    assert(old(self).spec_blocks()[o].owns(addr));
                    old(self).lemma_owner(addr, o);
                }
            }
            match node_at(&self.nodes, numa as usize).objects.get(addr) {
                Some(handle) => {
                    match self.index_of(handle) {
                        Some(index) => {
                            let done = self.blocks[index].dealloc(addr);
                            proof {
                                let now = self.blocks@[index as int].free();
                                let was = blocks0[index as int].free();
                                assert forall|a: usize| was.contains(a) implies now.contains(a) by {
                                    if done {
                                        let w = choose|w: int| 0 <= w < was.len() && was[w] == a;
                                        assert(now[w] == a);
                                    }
                                }
                                if done {
                                    assert(now[now.len() - 1] == addr);
                                }
                                assert(old(self).owner(addr) == Some(index as int));
                                assert(done == (was.len() < usize::MAX));
                            }
                        },
                        None => {},
                    }
                },
                None => {},
            }
            proof {
                assert forall|i: int| 0 <= i < self.blocks@.len() implies (#[trigger] self.blocks@[i]).free()
                    == old(self).returned(i, numa as int, taken) by {
                    assert(blocks0[i].free() == old(self).returned(i, numa as int, order.take(k as int)));
                    if !(old(self).owner(addr) == Some(i) && old(self).spec_blocks()[i].spec_numa() == numa) {
                        assert(self.blocks@[i] == blocks0[i]);
                    }
                }
                assert forall|i: int| 0 <= i < self.blocks@.len() implies (
                #[trigger] self.blocks@[i]).spec_used() == old(self).in_use_after(i, numa as int, taken)
                    && self.blocks@[i].spec_cpu() == old(self).blocks@[i].spec_cpu() by {
                    assert(blocks0[i].free() == old(self).returned(i, numa as int, order.take(k as int)));
                    assert(blocks0[i].spec_used() == old(self).in_use_after(
                        i,
                        numa as int,
                        order.take(k as int),
                    ));
                    assert(blocks0[i].spec_size() == old(self).spec_blocks()[i].spec_size()) by {
                        assert(start.spec_blocks()[i].same_place(old(self).spec_blocks()[i]));
                    }
                    if !(old(self).owner(addr) == Some(i) && old(self).spec_blocks()[i].spec_numa() == numa) {
                        assert(self.blocks@[i] == blocks0[i]);
                    }
                }
                assert forall|i: int|
                    0 <= i < self.blocks@.len() && old(self).blocks@[i].spec_numa() != numa implies (
                #[trigger] self.blocks@[i]) == old(self).blocks@[i] by {
                    assert(blocks0[i] == old(self).blocks@[i]);
                    assert(self.blocks@[i] == blocks0[i]);
                }
            }
            proof {
                start.lemma_addrs_kept(*self);
                start.lemma_cursors_kept(*self);
                start.lemma_books_kept(*self);
                assert forall|i: int, a: usize|
                    0 <= i < old(self).spec_blocks().len() && old(self).spec_blocks()[i].owns(
                        a,
                    ) implies #[trigger] self.spec_blocks()[i].owns(a) by {
                    assert(start.spec_blocks()[i].owns(a));
                }
                assert forall|i: int| 0 <= i < old(self).spec_blocks().len() implies (
                #[trigger] self.spec_blocks()[i]).same_place(old(self).spec_blocks()[i]) by {
                    assert(start.spec_blocks()[i].same_place(old(self).spec_blocks()[i]));
                }
                assert forall|j: int| 0 <= j < k + 1 implies self.applied_by_index(
                    *old(self),
                    numa as int,
                    (#[trigger] items@[j]).0,
                ) by {
                    if j < k {
                        let a = items@[j].0;
                        if index.contains_key(a) {
                            match old(self).named(index[a]) {
                                Some(i) => {
                                    if blocks0[i].free().contains(a) {
                                        assert(self.blocks@[i].free().contains(a));
                                    }
                                },
                                None => {},
                            }
                        }
                    }
                }
            }
            k = k + 1;
        }
        proof {
            assert(order.take(order.len() as int) =~= order);
            assert(order == old(self).drain_order(numa as int));
            waiting.lemma_slots();
            let slots = waiting.slots();
            assert forall|q: int| 0 <= q < old(self).pending(numa as int).len() implies self.applied(
                *old(self),
                numa as int,
                #[trigger] old(self).pending(numa as int)[q],
            ) by {
                broadcast use vstd::seq_lib::group_to_multiset_ensures;

                assert(slots.contains(slots[q]));
                assert(slots.to_multiset().count(slots[q]) > 0);
                assert(items@.contains(slots[q]));
                let j = choose|j: int| 0 <= j < items@.len() && items@[j] == slots[q];
                let addr = old(self).pending(numa as int)[q];
                assert(items@[j].0 == addr);
                assert(self.applied_by_index(*old(self), numa as int, addr));
                if old(self).owner(addr) is Some {
                    let i = old(self).owner(addr)->Some_0;
                    if old(self).spec_blocks()[i].spec_numa() == numa {
                        assert(old(self).spec_blocks()[i].owns(addr));
                        assert(self.spec_blocks()[i].owns(addr));
                        assert(self.known(numa as int, (addr, (i + HANDLE_BASE) as usize)));
                        assert(self.up_to_date(numa as int));
                        assert(self.objects(numa as int).contains_key(addr));
                        assert(self.objects(numa as int)[addr] == i + HANDLE_BASE);
                    }
                }
            }
        }
    }

    /// The handle of the superblock of the object at `addr`: the indexes of
    /// objects are asked node by node, the node `current_numa` first, and
    /// each is brought up to date before it is asked.  The handle is found if
    /// and only if a superblock handed the object out, and it is that
    /// superblock's handle.
    pub fn get_from_objects(&mut self, current_numa: u16, addr: usize) -> (r: Option<usize>)
        requires
            old(self).wf(),
            current_numa < old(self).spec_nodes(),
        ensures
            final(self).wf(),
            final(self).same_layout(*old(self)),
            final(self).spec_blocks() == old(self).spec_blocks(),
            final(self).settled(*old(self)),
            forall|n: int| 0 <= n < old(self).spec_nodes() ==> final(self).pending(n) == old(self).pending(n),
            r == (match old(self).owner(addr) {
                Some(i) => Some((i + HANDLE_BASE) as usize),
                None => None,
            }),
            r is Some ==> exists|n: int|
                0 <= n < old(self).spec_nodes() && (#[trigger] final(self).objects(n)).contains_key(addr)
                    && final(self).objects(n)[addr] == r->Some_0,
            r is None ==> forall|n: int|
                0 <= n < old(self).spec_nodes() ==> !(#[trigger] final(self).objects(n)).contains_key(addr),
    {
        match self.lookup_at(current_numa, addr) {
            Some(handle) => {
                proof {
                    self.lemma_found(current_numa as int, addr, handle);
                }
                return Some(handle);
            },
            None => {},
        }
        let count: usize = nodes_len(&self.nodes);
        let mut n: usize = 0;
        while n < count
            invariant
                0 <= n <= count,
                count == self.nodes@.len(),
                self.wf(),
                current_numa < self.spec_nodes(),
                self.same_layout(*old(self)),
                self.spec_blocks() == old(self).spec_blocks(),
                self.settled(*old(self)),
                forall|m: int| 0 <= m < self.spec_nodes() ==> self.pending(m) == old(self).pending(m),
                !self.objects(current_numa as int).contains_key(addr),
                self.up_to_date(current_numa as int),
                forall|m: int| 0 <= m < n ==> !(#[trigger] self.objects(m)).contains_key(addr),
                forall|m: int| 0 <= m < n ==> #[trigger] self.up_to_date(m),
            decreases count - n,
        {
            let ghost start = *self;
            if n != current_numa as usize {
                match self.lookup_at(n as u16, addr) {
                    Some(handle) => {
                        proof {
                            self.lemma_found(n as int, addr, handle);
                        }
                        return Some(handle);
                    },
                    None => {},
                }
            }
            proof {
                assert forall|m: int| 0 <= m < n + 1 implies !(#[trigger] self.objects(m)).contains_key(
                    addr,
                ) by {
                    if m < n {
                        assert(!start.objects(m).contains_key(addr));
                    }
                }
                assert forall|m: int| 0 <= m < n + 1 implies #[trigger] self.up_to_date(m) by {
                    if m < n {
                        assert(start.up_to_date(m));
                    }
                }
            }
            n = n + 1;
        }
        proof {
            if self.owner(addr) is Some {
                let i = self.owner(addr)->Some_0;
                let home = self.blocks@[i].spec_numa() as int;
                assert(self.spec_blocks()[i].owns(addr));
                assert(self.known(home, (addr, (i + HANDLE_BASE) as usize)));
                assert(!self.objects(home).contains_key(addr));
                assert(self.up_to_date(home));
            }
        }
        None
    }

    /// A handle that an index of objects holds for an address is the handle
    /// of the address's owner.
    proof fn lemma_found(&self, numa: int, addr: usize, handle: usize)
        requires
            self.wf(),
            0 <= numa < self.spec_nodes(),
            self.objects(numa).contains_key(addr),
            self.objects(numa)[addr] == handle,
        ensures
            self.owner(addr) == Some(handle - HANDLE_BASE),
            handle >= HANDLE_BASE,
    {
        assert(self.known(numa, (addr, handle)));
        assert(handle_owns(self.spec_blocks(), numa, addr, handle));
        self.lemma_owner(addr, handle - HANDLE_BASE);
    }

    /// Brings the index of objects of node `numa` up to date and asks it for
    /// the object at `addr`.
    fn lookup_at(&mut self, numa: u16, addr: usize) -> (r: Option<usize>)
        requires
            old(self).wf(),
            numa < old(self).spec_nodes(),
        ensures
            final(self).wf(),
            final(self).same_layout(*old(self)),
            final(self).spec_blocks() == old(self).spec_blocks(),
            forall|n: int| 0 <= n < old(self).spec_nodes() ==> final(self).pending(n) == old(self).pending(n),
            forall|n: int|
                0 <= n < old(self).spec_nodes() && n != numa ==> final(self).objects(n) == old(self).objects(
                    n,
                ) && final(self).up_to_date(n) == old(self).up_to_date(n),
            final(self).up_to_date(numa as int),
            final(self).settled(*old(self)),
            r == (if final(self).objects(numa as int).contains_key(addr) {
                Some(final(self).objects(numa as int)[addr])
            } else {
                None
            }),
    {
        proof {
            assert(self.nodes@[numa as int].node_ok(numa as int, self.nodes@.len()));
        }
        node_mut(&mut self.nodes, numa as usize).objects.refresh(0);
        let r = node_at(&self.nodes, numa as usize).objects.get(addr);
        proof {
            old(self).lemma_addrs_kept(*self);
            old(self).lemma_cursors_kept(*self);
            old(self).lemma_books_refreshed(*self, numa as int);
            assert forall|n: int| 0 <= n < old(self).spec_nodes() && n != numa implies self.up_to_date(
                n,
            ) == old(self).up_to_date(n) by {
                assert(self.nodes@[n] == old(self).nodes@[n]);
            }
        }
        r
    }

    /// What `serve` makes of the heap `before` where it hands out the object
    /// at `addr`: superblock `i`, which serves the size class of `size`, has
    /// handed out `g`, and every other superblock is as it was.  The
    /// superblock is one of `before` or a new one, whose first object `g` is.
    pub open spec fn served(&self, before: Self, size: usize, addr: usize, i: int, g: Grant) -> bool {
        &&& 0 <= i < self.spec_blocks().len()
        &&& grant_addr(g) == addr
        &&& self.spec_blocks()[i].owns(addr)
        &&& self.spec_blocks()[i].spec_tier() == size_class_index(size as nat)
        &&& self.spec_blocks()[i].spec_size() == class_size(size_class_index(size as nat))
        &&& size <= self.spec_blocks()[i].spec_size()
        &&& i < before.spec_blocks().len() ==> self.spec_blocks().len() == before.spec_blocks().len()
            && self.spec_blocks()[i].granted_from(before.spec_blocks()[i], g)
        &&& i >= before.spec_blocks().len() ==> i == before.spec_blocks().len() && self.spec_blocks().len()
            == i + 1 && g == Grant::Fresh(self.spec_blocks()[i].spec_data_base())
            && self.spec_blocks()[i].free() == Seq::<usize>::empty()
            && self.spec_blocks()[i].spec_reservation() == self.spec_blocks()[i].spec_size()
            && self.spec_blocks()[i].spec_used() == self.spec_blocks()[i].spec_size()
        &&& forall|j: int|
            0 <= j < before.spec_blocks().len() && j != i ==> (#[trigger] self.spec_blocks()[j]).same_stock(
                before.spec_blocks()[j],
            )
    }

    /// Local reuse: an address that stands last in the free list of a
    /// superblock is what that superblock serves the next request with,
    /// before any address that its cursor has yet to reach; and it stays last
    /// in the free list while other superblocks serve.
    pub proof fn lemma_reuse_before_bump(
        before: Self,
        after: Self,
        freed: usize,
        owner: int,
        size: usize,
        addr: usize,
        i: int,
        g: Grant,
    )
        requires
            0 <= owner < before.spec_blocks().len(),
            before.spec_blocks()[owner].free().len() > 0,
            before.spec_blocks()[owner].free().last() == freed,
            after.served(before, size, addr, i, g),
        ensures
            i == owner ==> addr == freed && g == Grant::Reused(freed),
            i != owner ==> after.spec_blocks()[owner].free().len() > 0 && after.spec_blocks()[owner].free().last()
                == freed,
    {
        if i != owner {
            assert(after.spec_blocks()[owner].same_stock(before.spec_blocks()[owner]));
        }
    }

    /// Local reuse across the superblocks of a processor: where the
    /// superblock whose free list ends in `freed` is the newest of those that
    /// the processor prefers for the class and that can hand out an object,
    /// the next request of the class from that processor gets `freed`, and no
    /// cursor moves.
    pub proof fn lemma_reuse_at_first_choice(
        before: Self,
        after: Self,
        size: usize,
        meta: ThreadMeta,
        r: AllocResult,
        k: int,
        freed: usize,
    )
        requires
            after.chosen(before, size, meta, r),
            before.first_choice(meta.cpu as int, size_class_index(size as nat) as int, k),
            ({
                let handle = before.preferred(meta.cpu as int, size_class_index(size as nat) as int)[k];
                let owner = before.spec_blocks()[before.named(handle).unwrap()];
                owner.free().len() > 0 && owner.free().last() == freed
            }),
        ensures
            r == AllocResult::Allocated(freed),
            forall|j: int|
                0 <= j < before.spec_blocks().len() ==> (#[trigger] after.spec_blocks()[j]).spec_reservation()
                    == before.spec_blocks()[j].spec_reservation(),
    {
        let tier = size_class_index(size as nat) as int;
        let handle = before.preferred(meta.cpu as int, tier)[k];
        let i = before.named(handle).unwrap();
        assert(after.took(before, size, meta, handle, r));
        assert forall|j: int| 0 <= j < before.spec_blocks().len() implies (
        #[trigger] after.spec_blocks()[j]).spec_reservation() == before.spec_blocks()[j].spec_reservation() by {
            if j != i {
                assert(after.spec_blocks()[j].same_stock(before.spec_blocks()[j]));
            }
        }
    }

    /// Two requests served one after the other, with no free in between, get
    /// different addresses, as long as no address stands twice in the free
    /// list of the superblock that serves the first, which is to say that no
    /// object of it was freed twice.
    pub proof fn lemma_successive_serves_differ(
        first: Self,
        second: Self,
        third: Self,
        size_1: usize,
        size_2: usize,
        addr_1: usize,
        addr_2: usize,
        i: int,
        j: int,
        g_1: Grant,
        g_2: Grant,
    )
        requires
            first.wf(),
            third.wf(),
            second.served(first, size_1, addr_1, i, g_1),
            third.served(second, size_2, addr_2, j, g_2),
            i < first.spec_blocks().len() ==> first.spec_blocks()[i].free().no_duplicates(),
        ensures
            addr_1 != addr_2,
    {
        if i != j {
            assert(third.spec_blocks()[i].same_stock(second.spec_blocks()[i]));
            assert(third.spec_blocks()[i].owns(addr_1));
            if addr_1 == addr_2 {
                third.lemma_one_superblock(addr_1, i, j);
            }
        } else if i < first.spec_blocks().len() {
            first.blocks@[i].lemma_place();
            lemma_successive_grants_differ(first.spec_blocks()[i]);
        } else {
            third.blocks@[i].lemma_place();
            lemma_class_size_bounds(third.spec_blocks()[i].spec_tier() as nat);
        }
    }

    /// What `allocate` makes of the heap `before` for a request of `size`
    /// bytes from a thread at `meta`, with the result `r`: the heap after the
    /// frees that waited at the thread's node were applied, and after that
    /// heap served the request.
    pub open spec fn allocated(&self, before: Self, size: usize, meta: ThreadMeta, r: AllocResult) -> bool {
        &&& self.anchored(before)
        &&& self.spec_blocks().len() <= before.spec_blocks().len() + 1
        &&& self.pending(meta.numa as int) == Seq::<usize>::empty()
        &&& forall|n: int|
            0 <= n < before.spec_nodes() && n != meta.numa ==> self.pending(n) == before.pending(
                n,
            )
        &&& r matches AllocResult::Allocated(a) ==> exists|i: int|
            0 <= i < self.spec_blocks().len() && (#[trigger] self.spec_blocks()[i]).owns(
                a,
            ) && self.spec_blocks()[i].spec_tier() == size_class_index(size as nat)
                && self.spec_blocks()[i].spec_size() == class_size(
                size_class_index(size as nat),
            ) && size <= self.spec_blocks()[i].spec_size()
        &&& r matches AllocResult::NeedRegion(n) ==> n == meta.numa && self.same_layout(
            before,
        )
        &&& r is Exhausted ==> self.same_layout(before)
        &&& before.pending(meta.numa as int).len() == 0 ==> self.chosen(before, size, meta, r)
        &&& exists|mid: Self|
            #![trigger mid.drained(before, meta.numa as int)]
            mid.wf() && mid.drained(before, meta.numa as int) && self.anchored(mid)
                && self.chosen(mid, size, meta, r) && (
            r matches AllocResult::Allocated(a) ==> exists|i: int, g: Grant| #[trigger]
                self.served(mid, size, a, i, g)) && (!(r is Allocated) ==> self.same_layout(mid) && forall|j: int|
                0 <= j < mid.spec_blocks().len() ==> (#[trigger] self.spec_blocks()[j]).same_stock(
                    mid.spec_blocks()[j],
                ))
    }

    /// Allocates an object of `size` bytes for a thread at `meta`: applies
    /// the frees that wait at the thread's node, and serves the request.
    pub fn allocate(&mut self, size: usize, meta: ThreadMeta) -> (r: AllocResult)
        requires
            old(self).wf(),
            old(self).knows(meta),
            size <= MAXIMUM_SMALL_SIZE,
        ensures
            final(self).wf(),
            final(self).allocated(*old(self), size, meta, r),
    {
        self.drain_pending(meta.numa);
        let ghost mid = *self;
        let r = self.serve(size, meta);
        proof {
            assert(mid.drained(*old(self), meta.numa as int));
            if r is Allocated {
                let a = r->Allocated_0;
                let (i, g) = choose|i: int, g: Grant| #[trigger] self.served(mid, size, a, i, g);
                assert(self.spec_blocks()[i].owns(a));
            }
        }
        r
    }

    /// Serves a request for an object of `size` bytes from a thread at
    /// `meta`: from the superblocks that the thread's processor prefers for
    /// the size class, newest first; else from a superblock adopted from the
    /// node's pool; else from a new superblock carved from the node's bump
    /// heap.  A superblock serves the request with the address that it freed
    /// last, or with the address at its cursor.
    pub fn serve(&mut self, size: usize, meta: ThreadMeta) -> (r: AllocResult)
        requires
            old(self).wf(),
            old(self).knows(meta),
            size <= MAXIMUM_SMALL_SIZE,
        ensures
            final(self).wf(),
            final(self).anchored(*old(self)),
            forall|n: int| 0 <= n < old(self).spec_nodes() ==> final(self).pending(n) == old(self).pending(n),
            r is Allocated ==> exists|i: int, g: Grant| #[trigger]
                final(self).served(*old(self), size, r->Allocated_0, i, g),
            final(self).chosen(*old(self), size, meta, r),
            !(r is Allocated) ==> forall|n: int|
                0 <= n < old(self).spec_nodes() ==> final(self).load(n) == old(self).load(n),
            r matches AllocResult::NeedRegion(n) ==> n == meta.numa,
            !(r is Allocated) ==> final(self).same_layout(*old(self)) && forall|j: int|
                0 <= j < old(self).spec_blocks().len() ==> (#[trigger] final(self).spec_blocks()[j]).same_stock(
                    old(self).spec_blocks()[j],
                ),
    {
        let tier: usize = size_class_index_from_size(size);
        proof {
            lemma_small_tier(size as nat);
        }
        let cpu: usize = meta.cpu as usize;
        let numa: usize = meta.numa as usize;
        // The superblocks that the processor prefers, newest first.
        let preferred: Vec<usize> = self.preferred_handles(cpu, tier);
        let ghost list = self.preferred(cpu as int, tier as int);
        let mut k: usize = 0;
        while k < preferred.len()
            invariant
                0 <= k <= preferred@.len(),
                self.wf(),
                self.knows(meta),
                cpu == meta.cpu,
                numa == meta.numa,
                old(self).spec_cpu_node()[cpu as int] == numa,
                list == old(self).preferred(cpu as int, tier as int),
                preferred@.len() == list.len(),
                forall|m: int| 0 <= m < preferred@.len() ==> #[trigger] preferred@[m] == list[list.len() - 1 - m],
                forall|m: int| 0 <= m < k ==> !old(self).can_serve(#[trigger] preferred@[m], tier as int, numa as int),
                forall|n: int| 0 <= n < old(self).spec_nodes() ==> self.load(n) == old(self).load(n),
                self.shared(meta.numa as int, tier as int) == old(self).shared(meta.numa as int, tier as int),
                self.preferred(cpu as int, tier as int) == list,
                forall|j: int|
                    0 <= j < old(self).spec_blocks().len() ==> (#[trigger] self.spec_blocks()[j]).spec_cpu() == old(self).spec_blocks()[j].spec_cpu(),
                self.other_lists_kept(*old(self), cpu as int, meta.numa as int, tier as int),
                tier == size_class_index(size as nat),
                size <= class_size(tier as nat),
                self.same_layout(*old(self)),
                forall|n: int| 0 <= n < old(self).spec_nodes() ==> self.pending(n) == old(self).pending(n),
                forall|j: int|
                    0 <= j < old(self).spec_blocks().len() ==> (#[trigger] self.spec_blocks()[j]).same_stock(
                        old(self).spec_blocks()[j],
                    ),
            decreases preferred@.len() - k,
        {
            match self.index_of(preferred[k]) {
                Some(index) => {
                    if self.blocks[index].tier as usize == tier && self.blocks[index].numa as usize == numa {
                        let ghost before = *self;
                        match self.allocate_from(index, meta) {
                            Some(addr) => {
                                proof {
                                    self.blocks@[index as int].lemma_place();
                                    let g = choose|g: Grant|
                                        grant_addr(g) == addr && #[trigger] self.spec_blocks()[index as int].granted_from(
                                            before.spec_blocks()[index as int],
                                            g,
                                        );
                                    assert(self.spec_blocks()[index as int].granted_from(
                                        old(self).spec_blocks()[index as int],
                                        g,
                                    ));
                                    assert(self.served(*old(self), size, addr, index as int, g));
                                    assert(before.has_stock(index as int));
                                    assert(before.spec_blocks()[index as int].same_stock(
                                        old(self).spec_blocks()[index as int],
                                    ));
                                    assert(old(self).has_stock(index as int));
                                    assert(old(self).can_serve(preferred@[k as int], tier as int, numa as int));
                                    assert(old(self).next_of(preferred@[k as int]) == g);
                                    assert forall|c: int| #[trigger]
                                        old(self).first_choice(cpu as int, tier as int, c) implies c
                                        == list.len() - 1 - k by {
                                        let at = list.len() - 1 - c;
                                        assert(preferred@[at] == list[c]);
                                        if at > k {
                                            assert(preferred@[k as int] == list[list.len() - 1 - k]);
                                        }
                                    }
                                    assert forall|m: int|
                                        list.len() - 1 - k < m < list.len() implies !old(self).can_serve(
                                        #[trigger] list[m],
                                        tier as int,
                                        numa as int,
                                    ) by {
                                        assert(preferred@[list.len() - 1 - m] == list[m]);
                                    }
                                    assert(old(self).first_choice(cpu as int, tier as int, list.len() - 1 - k));
                                    assert(self.took(
                                        *old(self),
                                        size,
                                        meta,
                                        preferred@[k as int],
                                        AllocResult::Allocated(addr),
                                    ));
                                }
                                // The result is bound first, for the claim
                                // about it to speak of it.
                                let r = AllocResult::Allocated(addr);
                                assert(r->Allocated_0 == addr);
                                assert(exists|i: int, g: Grant| #[trigger]
                                    self.served(*old(self), size, r->Allocated_0, i, g));
                                assert(self.chosen(*old(self), size, meta, r));
                                return r;
                            },
                            None => {
                                proof {
                                    assert(before.spec_blocks()[index as int].same_stock(
                                        old(self).spec_blocks()[index as int],
                                    ));
                                    assert(!old(self).has_stock(index as int));
                                }
                            },
                        }
                    }
                },
                None => {},
            }
            k = k + 1;
        }
        proof {
            assert forall|c: int| !#[trigger] old(self).first_choice(cpu as int, tier as int, c) by {
                if old(self).first_choice(cpu as int, tier as int, c) {
                    let at = list.len() - 1 - c;
                    assert(preferred@[at] == list[c]);
                }
            }
        }
        // Superblocks that the node holds for whoever needs them.
        let ghost pool = self.shared(numa as int, tier as int);
        proof {
            assert(pool.skip(pool.len() as int).reverse() =~= Seq::<usize>::empty());
            assert(list + Seq::<usize>::empty() =~= list);
        }
        loop
            invariant
                pool == old(self).shared(numa as int, tier as int),
                self.shared(numa as int, tier as int).len() <= pool.len(),
                list == old(self).preferred(cpu as int, tier as int),
                self.preferred(cpu as int, tier as int).len() + self.shared(numa as int, tier as int).len()
                    <= list.len() + pool.len(),
                self.other_lists_kept(*old(self), cpu as int, numa as int, tier as int),
                self.tagged(*old(self), meta, tier as int),
                list.len() <= self.preferred(cpu as int, tier as int).len(),
                list.len() + pool.len() <= usize::MAX ==> self.preferred(cpu as int, tier as int) == list
                    + old(self).adoptable(
                    pool.skip(self.shared(numa as int, tier as int).len() as int).reverse(),
                    tier as int,
                    numa as int,
                ),
                self.shared(numa as int, tier as int) == pool.take(
                    self.shared(numa as int, tier as int).len() as int,
                ),
                forall|m: int|
                    self.shared(numa as int, tier as int).len() <= m < pool.len() ==> !old(self).can_serve(
                        #[trigger] pool[m],
                        tier as int,
                        numa as int,
                    ),
                forall|n: int| 0 <= n < old(self).spec_nodes() ==> self.load(n) == old(self).load(n),
                self.wf(),
                self.knows(meta),
                tier < NUM_SIZE_CLASS,
                tier == size_class_index(size as nat),
                size <= class_size(tier as nat),
                cpu == meta.cpu,
                numa == meta.numa,
                old(self).spec_cpu_node()[cpu as int] == numa,
                forall|c: int| !#[trigger] old(self).first_choice(cpu as int, tier as int, c),
                self.same_layout(*old(self)),
                forall|n: int| 0 <= n < old(self).spec_nodes() ==> self.pending(n) == old(self).pending(n),
                forall|j: int|
                    0 <= j < old(self).spec_blocks().len() ==> (#[trigger] self.spec_blocks()[j]).same_stock(
                        old(self).spec_blocks()[j],
                    ),
            ensures
                forall|m: int| 0 <= m < pool.len() ==> !old(self).can_serve(#[trigger] pool[m], tier as int, numa as int),
                self.shared(numa as int, tier as int).len() == 0,
            decreases self.shared(numa as int, tier as int).len(),
        {
            let ghost left = self.shared(numa as int, tier as int);
            let adopted: Option<usize> = self.pop_shared(numa, tier);
            let ghost at = left.len() - 1;
            proof {
                if adopted is Some {
                    assert(left.drop_last() =~= pool.take(at));
                    assert(adopted == Some(pool[at]));
                    let popped = pool.skip(at).reverse();
                    assert(popped.drop_last() =~= pool.skip(at + 1).reverse());
                    assert(popped.last() == pool[at]);
                }
            }
            match adopted {
                None => {
                    break ;
                },
                Some(handle) => {
                    match self.index_of(handle) {
                        Some(index) => {
                            if self.blocks[index].tier as usize == tier && self.blocks[index].numa as usize == numa {
                                let ghost unadopted = *self;
                                self.adopt(index, handle, meta);
                                proof {
                                    assert(unadopted.spec_blocks()[index as int].spec_tier() == tier);
                                    assert(self.named(handle) == Some(index as int));
                                    let was = unadopted.preferred(cpu as int, tier as int);
                                    if was.len() < usize::MAX {
                                        assert(self.on_top(meta, tier as int, handle));
                                        assert(self.preferred(cpu as int, tier as int) == was.push(handle));
                                    } else {
                                        assert(self.preferred(cpu as int, tier as int) == was);
                                    }
                                    self.lemma_tagged_step(
                                        unadopted,
                                        *old(self),
                                        meta,
                                        tier as int,
                                        index as int,
                                        handle,
                                    );
                                }
                                let ghost before = *self;
                                match self.allocate_from(index, meta) {
                                    Some(addr) => {
                                        proof {
                                            assert(before.has_stock(index as int));
                                            assert(before.spec_blocks()[index as int].same_stock(
                                                old(self).spec_blocks()[index as int],
                                            ));
                                            assert(old(self).has_stock(index as int));
                                            assert(old(self).can_serve(handle, tier as int, numa as int));
                                            assert(old(self).pool_choice(numa as int, tier as int, at));
                                            assert forall|c: int| #[trigger]
                                                old(self).pool_choice(numa as int, tier as int, c) implies c
                                                == at by {
                                                if c < at {
                                                    assert(!old(self).can_serve(pool[at], tier as int, numa as int));
                                                }
                                            }
                                            self.blocks@[index as int].lemma_place();
                                            let g = choose|g: Grant|
                                                grant_addr(g) == addr && #[trigger] self.spec_blocks()[index as int].granted_from(
                                                    before.spec_blocks()[index as int],
                                                    g,
                                                );
                                            assert(self.spec_blocks()[index as int].granted_from(
                                                old(self).spec_blocks()[index as int],
                                                g,
                                            ));
                                            assert(self.served(*old(self), size, addr, index as int, g));
                                            assert(old(self).next_of(handle) == g);
                                            assert(self.took(*old(self), size, meta, handle, AllocResult::Allocated(addr)));
                                            assert(self.shared(numa as int, tier as int) =~= pool.take(at));
                                            if self.preferred(cpu as int, tier as int).len() < usize::MAX {
                                                assert(before.on_top(meta, tier as int, handle));
                                                assert(self.on_top(meta, tier as int, handle));
                                            }
                                        }
                                        let r = AllocResult::Allocated(addr);
                                        assert(r->Allocated_0 == addr);
                                        assert(exists|i: int, g: Grant| #[trigger]
                                            self.served(*old(self), size, r->Allocated_0, i, g));
                                        assert(self.chosen(*old(self), size, meta, r));
                                        return r;
                                    },
                                    None => {
                                        proof {
                                            assert(before.spec_blocks()[index as int].same_stock(
                                                old(self).spec_blocks()[index as int],
                                            ));
                                            assert(!old(self).has_stock(index as int));
                                        }
                                    },
                                }
                            }
                        },
                        None => {},
                    }
                },
            }
        }
        proof {
            assert forall|c: int| !#[trigger] old(self).pool_choice(numa as int, tier as int, c) by {
                if old(self).pool_choice(numa as int, tier as int, c) {
                    assert(!old(self).can_serve(pool[c], tier as int, numa as int));
                }
            }
            old(self).lemma_cursors();
            self.lemma_cursors();
        }
        assert(self.shared(numa as int, tier as int) =~= Seq::<usize>::empty());
        let ghost adopted_all = old(self).adoptable(pool.reverse(), tier as int, numa as int);
        proof {
            assert(pool.skip(0) =~= pool);
            assert(list + adopted_all + Seq::<usize>::empty() =~= list + adopted_all);
        }
        // A new superblock from the node's bump heap.
        if self.blocks.len() >= MAX_CAPACITY {
            return AllocResult::Exhausted;
        }
        proof {
            assert(self.nodes@[numa as int].node_ok(numa as int, self.nodes@.len()));
            assert(classes_ok(self.cpus@[cpu as int].size_class_list@, cpu as u16, self.cpu_node@[cpu as int]));
            self.nodes@[numa as int].bump_allocator.lemma_cursor_in_region();
        }
        if core_at(&self.cpus, cpu).size_class_list[tier].blocks.count() == usize::MAX {
            return AllocResult::Exhausted;
        }
        if node_at(&self.nodes, numa).objects.load() >= MAX_CAPACITY {
            return AllocResult::Exhausted;
        }
        let ghost ready = *self;
        let chunk: Option<usize> = node_mut(&mut self.nodes, numa).bump_allocator.bump_allocate(SUPERBLOCK_CHUNK);
        match chunk {
            None => {
                proof {
                    ready.lemma_addrs_kept(*self);
                    ready.lemma_cursors_kept(*self);
                    ready.lemma_books_kept(*self);
                    assert(self.preferred(cpu as int, tier as int) == ready.preferred(cpu as int, tier as int));
                    assert(self.spec_blocks() == ready.spec_blocks());
                    assert(self.tagged(*old(self), meta, tier as int));
                }
                AllocResult::NeedRegion(meta.numa)
            },
            Some(addr) => {
                let class_bytes: u32 = core_at(&self.cpus, cpu).size_class_list[tier].size;
                proof {
                    ready.lemma_sequences();
                    ready.lemma_cursors();
                    lemma_layout_carved(ready.addrs(), ready.regions(), ready.cursors(), numa as int);
                }
                let block = SuperBlock::new(addr, tier as u32, class_bytes, meta.cpu, meta.numa);
                let index: usize = self.blocks.len();
                let handle: usize = index + HANDLE_BASE;
                let ghost cpus0 = self.cpus@;
                self.blocks.push(block);
                core_mut(&mut self.cpus, cpu).size_class_list[tier].blocks.push(handle);
                proof {
                    self.lemma_front_changed(cpus0, cpu as int, tier as int);
                    ready.lemma_books_kept(*self);
                    ready.lemma_sequences();
                    lemma_layout_carved(ready.addrs(), ready.regions(), ready.cursors(), numa as int);
                    assert(self.addrs() =~= ready.addrs().push(addr));
                    assert(self.regions() =~= ready.regions());
                    assert(self.cursors() =~= ready.cursors().update(
                        numa as int,
                        (addr + SUPERBLOCK_CHUNK) as usize,
                    ));
                }
                let ghost carved = *self;
                proof {
                    assert(carved.preferred(cpu as int, tier as int) == ready.preferred(
                        cpu as int,
                        tier as int,
                    ).push(handle));
                    carved.lemma_tagged_step(ready, *old(self), meta, tier as int, index as int, handle);
                }
                match self.allocate_from(index, meta) {
                    Some(a) => {
                        proof {
                            self.blocks@[index as int].lemma_place();
                            let g = choose|g: Grant|
                                grant_addr(g) == a && #[trigger] self.spec_blocks()[index as int].granted_from(
                                    carved.spec_blocks()[index as int],
                                    g,
                                );
                            assert(self.served(*old(self), size, a, index as int, g));
                            assert(g == Grant::Fresh(a));
                            assert(self.preferred(cpu as int, tier as int) == carved.preferred(
                                cpu as int,
                                tier as int,
                            ));
                            assert(self.tagged(*old(self), meta, tier as int)) by {
                                assert forall|j: int|
                                    0 <= j < old(self).spec_blocks().len() && self.gained(
                                        *old(self),
                                        cpu as int,
                                        tier as int,
                                        j,
                                    ) == false implies (#[trigger] self.spec_blocks()[j]).spec_cpu() == old(self).spec_blocks()[j].spec_cpu() by {
                                    if carved.gained(*old(self), cpu as int, tier as int, j) {
                                    }
                                }
                            }
                            assert(a == addr + SUPERBLOCK_HEADER);
                            assert(addr == old(self).cursor(numa as int));
                            if list.len() + pool.len() <= usize::MAX {
                                assert(carved.preferred(cpu as int, tier as int) == (list + adopted_all).push(
                                    handle,
                                ));
                                assert((list + adopted_all).push(handle) =~= list + adopted_all + seq![handle]);
                            }
                            assert(carved.on_top(meta, tier as int, handle));
                            assert(self.on_top(meta, tier as int, handle));
                            assert(self.shared(numa as int, tier as int) == carved.shared(numa as int, tier as int));
                            assert(carved.shared(numa as int, tier as int) =~= Seq::<usize>::empty());
                        }
                        let r = AllocResult::Allocated(a);
                        assert(r->Allocated_0 == a);
                        assert(exists|i: int, g: Grant| #[trigger]
                            self.served(*old(self), size, r->Allocated_0, i, g));
                        r
                    },
                    // A new superblock has an object to hand out, and the
                    // index has room for it.
                    None => vstd::pervasive::unreached(),
                }
            },
        }
    }

    /// The handles of the superblocks that processor `cpu` prefers for class
    /// `tier`, newest first.
    fn preferred_handles(&self, cpu: usize, tier: usize) -> (r: Vec<usize>)
        requires
            self.wf(),
            cpu < self.spec_cpu_node().len(),
            tier < NUM_SIZE_CLASS,
        ensures
            r@.len() == self.preferred(cpu as int, tier as int).len(),
            forall|k: int|
                0 <= k < r@.len() ==> #[trigger] r@[k] == self.preferred(cpu as int, tier as int)[r@.len() - 1
                    - k],
    {
        proof {
            assert(classes_ok(self.cpus@[cpu as int].size_class_list@, cpu as u16, self.cpu_node@[cpu as int]));
            self.cpus@[cpu as int].size_class_list@[tier as int].blocks.lemma_slots();
        }
        let ghost slots = self.cpus@[cpu as int].size_class_list@[tier as int].blocks.slots();
        let ghost list = self.preferred(cpu as int, tier as int);
        let mut out: Vec<usize> = Vec::new();
        let mut iter = core_at(&self.cpus, cpu).size_class_list[tier].blocks.iter();
        loop
            invariant
                iter.wf(),
                list == self.preferred(cpu as int, tier as int),
                list.len() == slots.len(),
                forall|k: int| 0 <= k < slots.len() ==> list[k] == (#[trigger] slots[k]).0,
                out@.len() <= slots.len(),
                iter@ == slots.take(slots.len() - out@.len()),
                forall|k: int| 0 <= k < out@.len() ==> #[trigger] out@[k] == list[list.len() - 1 - k],
            ensures
                out@.len() == list.len(),
            decreases iter@.len(),
        {
            let ghost left = iter@;
            match iter.next() {
                Some(slot) => {
                    out.push(slot.0);
                    proof {
                        let n = slots.len() - (out@.len() - 1);
                        assert(left.len() == n);
                        assert(left.last() == slots[n - 1]);
                        assert(left.drop_last() =~= slots.take(n - 1));
                    }
                },
                None => {
                    break ;
                },
            }
        }
        out
    }

    /// Takes the newest superblock off the pool of node `numa` for class
    /// `tier`.
    fn pop_shared(&mut self, numa: usize, tier: usize) -> (r: Option<usize>)
        requires
            old(self).wf(),
            numa < old(self).spec_nodes(),
            tier < NUM_SIZE_CLASS,
        ensures
            final(self).wf(),
            final(self).same_layout(*old(self)),
            final(self).spec_blocks() == old(self).spec_blocks(),
            forall|n: int| 0 <= n < old(self).spec_nodes() ==> final(self).pending(n) == old(self).pending(n),
            r is Some ==> final(self).shared(numa as int, tier as int).len() < old(self).shared(
                numa as int,
                tier as int,
            ).len(),
            old(self).shared(numa as int, tier as int).len() == 0 ==> r is None && final(self).shared(
                numa as int,
                tier as int,
            ) == old(self).shared(numa as int, tier as int),
            old(self).shared(numa as int, tier as int).len() > 0 ==> r == Some(
                old(self).shared(numa as int, tier as int).last(),
            ) && final(self).shared(numa as int, tier as int) == old(self).shared(
                numa as int,
                tier as int,
            ).drop_last(),
            forall|n: int| 0 <= n < old(self).spec_nodes() ==> final(self).load(n) == old(self).load(n),
            forall|c: int, t: int|
                0 <= c < old(self).spec_cpu_node().len() && 0 <= t < NUM_SIZE_CLASS ==> final(self).preferred(c, t)
                    == old(self).preferred(c, t),
            forall|n: int, t: int|
                0 <= n < old(self).spec_nodes() && 0 <= t < NUM_SIZE_CLASS && !(n == numa && t == tier)
                    ==> final(self).shared(n, t) == old(self).shared(n, t),
    {
        proof {
            assert(self.nodes@[numa as int].node_ok(numa as int, self.nodes@.len()));
        }
        let ghost classes0 = self.nodes@[numa as int].size_class_list@;
        let r = node_mut(&mut self.nodes, numa).size_class_list[tier].blocks.pop();
        proof {
            let classes1 = self.nodes@[numa as int].size_class_list@;
            assert forall|i: int| 0 <= i < NUM_SIZE_CLASS implies {
                &&& (#[trigger] classes1[i]).wf()
                &&& classes1[i].spec_tier() == i
                &&& classes1[i].spec_cpu() == 0
                &&& classes1[i].spec_numa() == numa as u16
            } by {
                if i != tier {
                    assert(classes1[i] == classes0[i]);
                }
            }
            old(self).lemma_addrs_kept(*self);
            old(self).lemma_cursors_kept(*self);
            old(self).lemma_books_kept(*self);
        }
        r
    }

    /// Makes the processor of the thread at `meta` the one that prefers
    /// superblock `index`, and puts the superblock's handle on top of the
    /// processor's list for its class.
    fn adopt(&mut self, index: usize, handle: usize, meta: ThreadMeta)
        requires
            old(self).wf(),
            old(self).knows(meta),
            index < old(self).spec_blocks().len(),
            handle == index + HANDLE_BASE,
        ensures
            final(self).wf(),
            final(self).same_layout(*old(self)),
            final(self).nodes@ == old(self).nodes@,
            forall|n: int| 0 <= n < old(self).spec_nodes() ==> final(self).pending(n) == old(self).pending(n),
            forall|j: int|
                0 <= j < old(self).spec_blocks().len() ==> (#[trigger] final(self).spec_blocks()[j]).same_stock(
                    old(self).spec_blocks()[j],
                ),
            old(self).preferred(meta.cpu as int, old(self).spec_blocks()[index as int].spec_tier() as int).len()
                < usize::MAX ==> final(self).on_top(
                meta,
                old(self).spec_blocks()[index as int].spec_tier() as int,
                handle,
            ),
            final(self).preferred(meta.cpu as int, old(self).spec_blocks()[index as int].spec_tier() as int).len()
                >= old(self).preferred(
                meta.cpu as int,
                old(self).spec_blocks()[index as int].spec_tier() as int,
            ).len(),
            final(self).preferred(meta.cpu as int, old(self).spec_blocks()[index as int].spec_tier() as int).len()
                <= old(self).preferred(
                meta.cpu as int,
                old(self).spec_blocks()[index as int].spec_tier() as int,
            ).len() + 1,
            final(self).other_lists_kept(
                *old(self),
                meta.cpu as int,
                meta.numa as int,
                old(self).spec_blocks()[index as int].spec_tier() as int,
            ),
            forall|j: int|
                0 <= j < old(self).spec_blocks().len() && j != index ==> (#[trigger] final(self).spec_blocks()[j]).spec_cpu()
                    == old(self).spec_blocks()[j].spec_cpu(),
            old(self).preferred(meta.cpu as int, old(self).spec_blocks()[index as int].spec_tier() as int).len()
                >= usize::MAX ==> final(self).spec_blocks()[index as int].spec_cpu() == old(self).spec_blocks()[index as int].spec_cpu()
                && final(self).preferred(
                meta.cpu as int,
                old(self).spec_blocks()[index as int].spec_tier() as int,
            ) == old(self).preferred(
                meta.cpu as int,
                old(self).spec_blocks()[index as int].spec_tier() as int,
            ),
            old(self).preferred(meta.cpu as int, old(self).spec_blocks()[index as int].spec_tier() as int).len()
                < usize::MAX ==> final(self).preferred(
                meta.cpu as int,
                old(self).spec_blocks()[index as int].spec_tier() as int,
            ) == old(self).preferred(
                meta.cpu as int,
                old(self).spec_blocks()[index as int].spec_tier() as int,
            ).push(handle),
    {
        let cpu: usize = meta.cpu as usize;
        let tier: usize = self.blocks[index].tier as usize;
        proof {
            assert(self.blocks@[index as int].wf());
            assert(classes_ok(self.cpus@[cpu as int].size_class_list@, cpu as u16, self.cpu_node@[cpu as int]));
        }
        if core_at(&self.cpus, cpu).size_class_list[tier].blocks.count() == usize::MAX {
            return ;
        }
        self.blocks[index].cpu = meta.cpu;
        let ghost cpus0 = self.cpus@;
        core_mut(&mut self.cpus, cpu).size_class_list[tier].blocks.push(handle);
        proof {
            self.lemma_front_changed(cpus0, cpu as int, tier as int);
            old(self).lemma_addrs_kept(*self);
            old(self).lemma_cursors_kept(*self);
            old(self).lemma_books_kept(*self);
        }
    }

    /// A change to the list of one class of one processor leaves the
    /// front-ends consistent.
    proof fn lemma_front_changed(&self, cpus0: Seq<CoreMeta>, cpu: int, tier: int)
        requires
            0 <= cpu < cpus0.len(),
            0 <= tier < NUM_SIZE_CLASS,
            cpus0.len() == self.cpus@.len(),
            self.cpus@.len() == self.cpu_node@.len(),
            forall|c: int|
                0 <= c < cpus0.len() ==> classes_ok(
                    (#[trigger] cpus0[c]).size_class_list@,
                    c as u16,
                    self.cpu_node@[c],
                ),
            forall|c: int| 0 <= c < cpus0.len() && c != cpu ==> self.cpus@[c] == cpus0[c],
            self.cpus@[cpu].size_class_list@.len() == NUM_SIZE_CLASS,
            forall|i: int|
                0 <= i < NUM_SIZE_CLASS && i != tier ==> self.cpus@[cpu].size_class_list@[i]
                    == cpus0[cpu].size_class_list@[i],
            self.cpus@[cpu].size_class_list@[tier].wf(),
            self.cpus@[cpu].size_class_list@[tier].spec_tier() == tier,
            self.cpus@[cpu].size_class_list@[tier].spec_cpu() == cpu as u16,
            self.cpus@[cpu].size_class_list@[tier].spec_numa() == self.cpu_node@[cpu],
        ensures
            forall|c: int|
                0 <= c < self.cpus@.len() ==> classes_ok(
                    (#[trigger] self.cpus@[c]).size_class_list@,
                    c as u16,
                    self.cpu_node@[c],
                ),
    {
        assert forall|c: int| 0 <= c < self.cpus@.len() implies classes_ok(
            (#[trigger] self.cpus@[c]).size_class_list@,
            c as u16,
            self.cpu_node@[c],
        ) by {
            assert(classes_ok(cpus0[c].size_class_list@, c as u16, self.cpu_node@[c]));
            if c == cpu {
                let now = self.cpus@[c].size_class_list@;
                assert forall|i: int| 0 <= i < NUM_SIZE_CLASS implies {
                    &&& (#[trigger] now[i]).wf()
                    &&& now[i].spec_tier() == i
                    &&& now[i].spec_cpu() == c as u16
                    &&& now[i].spec_numa() == self.cpu_node@[c]
                } by {
                    if i != tier {
                        assert(now[i] == cpus0[cpu].size_class_list@[i]);
                    }
                }
            }
        }
    }

    /// What the release of the object at `addr` by a thread at `meta` makes
    /// of the heap `mid`.  An object of the thread's node goes onto the free
    /// list of the superblock that handed it out, which then has the bytes of
    /// one object less in use; an object of another node goes onto the queue
    /// of frees that wait at that node.  A list that is full takes nothing,
    /// and nothing else changes but what the indexes of objects hold.
    pub open spec fn given_back(&self, mid: Self, addr: usize, meta: ThreadMeta) -> bool {
        &&& self.same_layout(mid)
        &&& self.settled(mid)
        &&& match mid.owner(addr) {
            None => {
                &&& self.spec_blocks() == mid.spec_blocks()
                &&& forall|n: int| 0 <= n < mid.spec_nodes() ==> self.pending(n) == mid.pending(n)
            },
            Some(i) => {
                let owner = mid.spec_blocks()[i];
                let home = owner.spec_numa() as int;
                let local = home == meta.numa;
                &&& forall|j: int|
                    0 <= j < mid.spec_blocks().len() && !(local && j == i) ==> self.spec_blocks()[j]
                        == mid.spec_blocks()[j]
                &&& forall|n: int|
                    0 <= n < mid.spec_nodes() && (local || n != home) ==> self.pending(n) == mid.pending(n)
                &&& local ==> {
                    &&& self.spec_blocks()[i].same_place(owner)
                    &&& self.spec_blocks()[i].spec_cpu() == owner.spec_cpu()
                    &&& self.spec_blocks()[i].spec_reservation() == owner.spec_reservation()
                    &&& self.spec_blocks()[i].free() == (if owner.free().len() < usize::MAX {
                        owner.free().push(addr)
                    } else {
                        owner.free()
                    })
                    &&& self.spec_blocks()[i].spec_used() == (if owner.free().len() < usize::MAX {
                        owner.spec_used().wrapping_sub(owner.spec_size())
                    } else {
                        owner.spec_used()
                    })
                }
                &&& !local ==> self.pending(home) == (if mid.pending(home).len() < usize::MAX {
                    mid.pending(home).push(addr)
                } else {
                    mid.pending(home)
                })
            },
        }
    }

    /// What `free` makes of the heap `before` for the object at `addr` and a
    /// thread at `meta`, with the result `r`: the heap after the frees that
    /// waited at the thread's node were applied, and after the object was
    /// given back to that heap.
    pub open spec fn freed(&self, before: Self, addr: usize, meta: ThreadMeta, r: bool) -> bool {
        &&& self.same_layout(before)
        &&& exists|mid: Self|
            #![trigger mid.drained(before, meta.numa as int)]
            mid.wf() && mid.drained(before, meta.numa as int) && self.given_back(mid, addr, meta)
        &&& forall|j: int|
            0 <= j < before.spec_blocks().len() && before.spec_blocks()[j].spec_numa() != meta.numa ==> (
            #[trigger] self.spec_blocks()[j]) == before.spec_blocks()[j]
        &&& r == (before.owner(addr) is Some)
        &&& self.pending(meta.numa as int).len() == 0
        &&& self.settled(before)
        &&& forall|j: int|
            0 <= j < before.spec_blocks().len() ==> (#[trigger] self.spec_blocks()[j]).spec_reservation()
                == before.spec_blocks()[j].spec_reservation()
        &&& before.pending(meta.numa as int).len() == 0 ==> forall|j: int|
            0 <= j < before.spec_blocks().len() && !(before.owner(addr) == Some(j)
                && before.spec_blocks()[j].spec_numa() == meta.numa) ==> (#[trigger] self.spec_blocks()[j])
                == before.spec_blocks()[j]
        &&& before.pending(meta.numa as int).len() == 0 ==> (before.owner(addr) matches Some(i)
            ==> before.spec_blocks()[i].spec_numa() == meta.numa && before.spec_blocks()[i].free().len()
            < usize::MAX
            ==> self.spec_blocks()[i].free() == before.spec_blocks()[i].free().push(addr))
        &&& before.owner(addr) matches Some(i) ==> ({
            let home = before.spec_blocks()[i].spec_numa();
            &&& home == meta.numa && before.spec_blocks()[i].free().len() + before.pending(
                meta.numa as int,
            ).len() < usize::MAX ==> self.spec_blocks()[i].free().len() > 0 && self.spec_blocks()[i].free().last() == addr
            &&& home != meta.numa && before.pending(home as int).len() < usize::MAX ==> self.pending(
                home as int,
            ) == before.pending(home as int).push(addr)
        })
    }

    /// Frees the object at `addr` for a thread at `meta`: applies the frees
    /// that wait at the thread's node, looks the object's superblock up, and
    /// releases the object to it.  Returns whether the heap knows the object,
    /// which is to say whether one of its superblocks handed it out.  An
    /// object of the thread's node is then the next that its superblock hands
    /// out; an object of another node is the newest of the frees that wait at
    /// that node.
    pub fn free(&mut self, addr: usize, meta: ThreadMeta) -> (r: bool)
        requires
            old(self).wf(),
            old(self).knows(meta),
        ensures
            final(self).wf(),
            final(self).freed(*old(self), addr, meta, r),
    {
        self.drain_pending(meta.numa);
        let ghost drained = *self;
        proof {
            if old(self).owner(addr) is Some {
                let i = old(self).owner(addr)->Some_0;
                assert(self.spec_blocks()[i].owns(addr));
                self.lemma_owner(addr, i);
            } else if self.owner(addr) is Some {
                let i = self.owner(addr)->Some_0;
                self.blocks@[i].lemma_place();
                old(self).blocks@[i].lemma_place();
                assert(old(self).spec_blocks()[i].owns(addr));
            }
        }
        match self.get_from_objects(meta.numa, addr) {
            Some(handle) => {
                let ghost looked = *self;
                self.release(handle, addr, meta);
                proof {
                    let i = handle - HANDLE_BASE;
                    assert(looked.named(handle) == Some(i));
                    looked.lemma_owner(addr, i);
                    let now = self.spec_blocks()[i].free();
                    if looked.spec_blocks()[i].spec_numa() == meta.numa && now.len() > 0 {
                        assert(now[now.len() - 1] == now.last());
                    }
                    assert(drained.owner(addr) == Some(i as int));
                    assert(self.given_back(drained, addr, meta));
                    assert(drained.drained(*old(self), meta.numa as int));
                }
                true
            },
            None => {
                proof {
                    assert(drained.owner(addr) is None);
                    assert(self.given_back(drained, addr, meta));
                    assert(drained.drained(*old(self), meta.numa as int));
                }
                false
            },
        }
    }

    /// What `release` does to the heap `before`.  Where the superblock that
    /// `handle` names belongs to the node of `meta`, the address goes onto the
    /// superblock's free list and is the next that the superblock hands out;
    /// where it belongs to another node, the address goes onto that node's
    /// queue of waiting frees.  Nothing happens where the handle names no
    /// superblock, where the superblock never handed the address out, or
    /// where the list that would take the address is full.
    pub open spec fn released(&self, before: Self, handle: usize, addr: usize, meta: ThreadMeta) -> bool {
        let local = before.named(handle) is Some && before.spec_blocks()[before.named(
            handle,
        )->Some_0].spec_numa() == meta.numa;
        let remote = before.named(handle) is Some && before.spec_blocks()[before.named(
            handle,
        )->Some_0].spec_numa() != meta.numa;
        let i = before.named(handle)->Some_0;
        let owner = before.spec_blocks()[i].spec_numa() as int;
        &&& self.same_layout(before)
        &&& self.settled(before)
        &&& forall|n: int| 0 <= n < before.spec_nodes() ==> self.objects(n) == before.objects(n)
        &&& forall|j: int|
            0 <= j < before.spec_blocks().len() && !(local && j == i) ==> self.spec_blocks()[j]
                == before.spec_blocks()[j]
        &&& forall|n: int|
            0 <= n < before.spec_nodes() && !(remote && n == owner) ==> self.pending(n)
                == before.pending(n)
        &&& local ==> self.spec_blocks()[i].free() == (if before.spec_blocks()[i].owns(addr)
            && before.spec_blocks()[i].free().len() < usize::MAX {
            before.spec_blocks()[i].free().push(addr)
        } else {
            before.spec_blocks()[i].free()
        })
        &&& local ==> self.spec_blocks()[i].spec_reservation() == before.spec_blocks()[i].spec_reservation()
            && self.spec_blocks()[i].spec_cpu() == before.spec_blocks()[i].spec_cpu()
        &&& local ==> self.spec_blocks()[i].spec_used() == (if before.spec_blocks()[i].owns(addr)
            && before.spec_blocks()[i].free().len() < usize::MAX {
            before.spec_blocks()[i].spec_used().wrapping_sub(before.spec_blocks()[i].spec_size())
        } else {
            before.spec_blocks()[i].spec_used()
        })
        &&& remote ==> self.pending(owner) == (if addr >= 2 && before.pending(owner).len()
            < usize::MAX {
            before.pending(owner).push(addr)
        } else {
            before.pending(owner)
        })
    }

    /// Releases the object at `addr` to the superblock that `handle` names,
    /// for a thread at `meta`.
    pub fn release(&mut self, handle: usize, addr: usize, meta: ThreadMeta)
        requires
            old(self).wf(),
            old(self).knows(meta),
        ensures
            final(self).wf(),
            final(self).released(*old(self), handle, addr, meta),
    {
        match self.index_of(handle) {
            Some(index) => {
                let owner: u16 = self.blocks[index].numa();
                if owner == meta.numa {
                    self.blocks[index].dealloc(addr);
                } else if addr >= 2 {
                    proof {
                        assert(self.blocks@[index as int].wf());
                        assert(self.nodes@[owner as int].node_ok(owner as int, self.nodes@.len()));
                    }
                    if node_at(&self.nodes, owner as usize).pending_free.count() < usize::MAX {
                        node_mut(&mut self.nodes, owner as usize).pending_free.push(addr);
                    }
                }
            },
            None => {},
        }
        proof {
            old(self).lemma_addrs_kept(*self);
            old(self).lemma_cursors_kept(*self);
            old(self).lemma_books_kept(*self);
        }
    }

    /// A free that one node issues for an object of another node is applied
    /// to the free list of the object's superblock by the next operation of
    /// the owning node: the release leaves the address in the owner's queue,
    /// and the owner's drain puts every address of its queue into the free
    /// list of the superblock that handed it out.
    pub proof fn lemma_remote_free_applied(
        before: Self,
        between: Self,
        after: Self,
        handle: usize,
        addr: usize,
        meta: ThreadMeta,
    )
        requires
            before.wf(),
            between.released(before, handle, addr, meta),
            before.named(handle) is Some,
            before.spec_blocks()[before.named(handle)->Some_0].spec_numa() != meta.numa,
            before.spec_blocks()[before.named(handle)->Some_0].owns(addr),
            addr >= 2,
            before.pending(before.spec_blocks()[before.named(handle)->Some_0].spec_numa() as int).len()
                < usize::MAX,
            between.wf(),
            after.drained(
                between,
                before.spec_blocks()[before.named(handle)->Some_0].spec_numa() as int,
            ),
            after.spec_blocks()[before.named(handle)->Some_0].free().len() < usize::MAX,
        ensures
            after.spec_blocks()[before.named(handle)->Some_0].free().contains(addr),
            after.pending(before.spec_blocks()[before.named(handle)->Some_0].spec_numa() as int)
                == Seq::<usize>::empty(),
    {
        let i = before.named(handle)->Some_0;
        let owner = before.spec_blocks()[i].spec_numa() as int;
        before.lemma_block_sizes(i);
        let queue = between.pending(owner);
        assert(queue == before.pending(owner).push(addr));
        assert(queue[queue.len() - 1] == addr);
        assert(between.spec_blocks()[i] == before.spec_blocks()[i]);
        between.lemma_owner(addr, i);
        assert(after.applied(between, owner, queue[queue.len() - 1]));
    }

    /// What `size_of` makes of the heap `before` for the object at `addr`,
    /// with the result `r`: the indexes of objects are brought up to date,
    /// and nothing else changes.
    pub open spec fn sized(&self, before: Self, addr: usize, meta: ThreadMeta, r: Option<usize>) -> bool {
        &&& self.same_layout(before)
        &&& self.spec_blocks() == before.spec_blocks()
        &&& self.settled(before)
        &&& forall|n: int| 0 <= n < before.spec_nodes() ==> self.pending(n) == before.pending(n)
        &&& r == (match before.owner(addr) {
            Some(i) => Some(before.spec_blocks()[i].spec_size() as usize),
            None => None,
        })
    }

    /// The size of the object at `addr`: the object size of the superblock
    /// that handed it out.
    pub fn size_of(&mut self, addr: usize, meta: ThreadMeta) -> (r: Option<usize>)
        requires
            old(self).wf(),
            old(self).knows(meta),
        ensures
            final(self).wf(),
            final(self).sized(*old(self), addr, meta, r),
    {
        match self.get_from_objects(meta.numa, addr) {
            Some(handle) => match self.index_of(handle) {
                Some(index) => Some(self.blocks[index].size() as usize),
                None => None,
            },
            None => None,
        }
    }

    /// The lists of the processors other than `cpu` and the pools of the
    /// nodes other than `numa` are those of `before`, and so are the numbers
    /// of entries of the indexes of objects.
    pub open spec fn kept_elsewhere(&self, before: Self, cpu: int, numa: int) -> bool {
        &&& forall|c: int, t: int|
            0 <= c < before.spec_cpu_node().len() && c != cpu && 0 <= t < NUM_SIZE_CLASS ==> self.preferred(c, t)
                == before.preferred(c, t)
        &&& forall|n: int, t: int|
            0 <= n < before.spec_nodes() && n != numa && 0 <= t < NUM_SIZE_CLASS ==> self.shared(n, t)
                == before.shared(n, t)
        &&& forall|n: int| 0 <= n < before.spec_nodes() ==> self.load(n) == before.load(n)
    }

    /// What `thread_exit` does to class `tier` of the heap `before`, for a
    /// thread on processor `cpu` of node `numa`: the superblocks that the
    /// processor preferred lie on top of the node's pool, in their order, and
    /// the processor prefers none.  A pool that cannot hold them all is left
    /// as it is, and so is the processor's list.
    pub open spec fn shared_out(&self, before: Self, cpu: int, numa: int, tier: int) -> bool {
        if before.preferred(cpu, tier).len() + before.shared(numa, tier).len() <= usize::MAX {
            &&& self.preferred(cpu, tier) == Seq::<usize>::empty()
            &&& self.shared(numa, tier) == before.shared(numa, tier) + before.preferred(cpu, tier)
        } else {
            &&& self.preferred(cpu, tier) == before.preferred(cpu, tier)
            &&& self.shared(numa, tier) == before.shared(numa, tier)
        }
    }

    /// Gives the superblocks that processor `cpu` prefers for class `tier` to
    /// the pool of node `numa`.
    fn share_class(&mut self, cpu: usize, numa: usize, tier: usize)
        requires
            old(self).wf(),
            cpu < old(self).spec_cpu_node().len(),
            numa == old(self).spec_cpu_node()[cpu as int],
            tier < NUM_SIZE_CLASS,
        ensures
            final(self).wf(),
            final(self).same_layout(*old(self)),
            final(self).spec_blocks() == old(self).spec_blocks(),
            forall|n: int| 0 <= n < old(self).spec_nodes() ==> final(self).pending(n) == old(self).pending(n),
            forall|n: int| 0 <= n < old(self).spec_nodes() ==> final(self).objects(n) == old(self).objects(n),
            final(self).shared_out(*old(self), cpu as int, numa as int, tier as int),
            final(self).kept_elsewhere(*old(self), cpu as int, numa as int),
            forall|t: int|
                0 <= t < NUM_SIZE_CLASS && t != tier ==> final(self).preferred(cpu as int, t) == old(self).preferred(cpu as int, t) && final(self).shared(numa as int, t) == old(self).shared(
                    numa as int,
                    t,
                ),
    {
        proof {
            assert(self.nodes@[numa as int].node_ok(numa as int, self.nodes@.len()));
            assert(classes_ok(self.cpus@[cpu as int].size_class_list@, cpu as u16, self.cpu_node@[cpu as int]));
        }
        let waiting: usize = core_at(&self.cpus, cpu).size_class_list[tier].blocks.count();
        let pooled: usize = node_at(&self.nodes, numa).size_class_list[tier].blocks.count();
        if waiting <= usize::MAX - pooled {
            let ghost cpus0 = self.cpus@;
            let ghost classes0 = self.nodes@[numa as int].size_class_list@;
            let ghost fronts0 = self.cpus@[cpu as int].size_class_list@;
            node_mut(&mut self.nodes, numa).size_class_list[tier].blocks.prepend_with(
                &mut core_mut(&mut self.cpus, cpu).size_class_list[tier].blocks,
            );
            proof {
                old(self).lemma_addrs_kept(*self);
                old(self).lemma_cursors_kept(*self);
                old(self).lemma_books_kept(*self);
                self.lemma_front_changed(cpus0, cpu as int, tier as int);
                let classes1 = self.nodes@[numa as int].size_class_list@;
                assert forall|i: int| 0 <= i < NUM_SIZE_CLASS implies {
                    &&& (#[trigger] classes1[i]).wf()
                    &&& classes1[i].spec_tier() == i
                    &&& classes1[i].spec_cpu() == 0
                    &&& classes1[i].spec_numa() == numa as u16
                } by {
                    if i != tier {
                        assert(classes1[i] == classes0[i]);
                    }
                }
                assert forall|t: int| 0 <= t < NUM_SIZE_CLASS && t != tier implies self.preferred(
                    cpu as int,
                    t,
                ) == old(self).preferred(cpu as int, t) && self.shared(numa as int, t) == old(self).shared(numa as int, t) by {
                    assert(classes1[t] == classes0[t]);
                    assert(self.cpus@[cpu as int].size_class_list@[t] == fronts0[t]);
                }
            }
        }
    }

    /// What `thread_exit` makes of the heap `before` for a thread at `meta`:
    /// class by class, the superblocks that the thread's processor preferred
    /// lie on top of the pool of its node, and nothing else has changed.
    pub open spec fn exited(&self, before: Self, meta: ThreadMeta) -> bool {
        &&& self.same_layout(before)
        &&& self.spec_blocks() == before.spec_blocks()
        &&& forall|n: int| 0 <= n < before.spec_nodes() ==> self.pending(n) == before.pending(n)
        &&& forall|n: int| 0 <= n < before.spec_nodes() ==> self.objects(n) == before.objects(n)
        &&& forall|tier: int|
            0 <= tier < NUM_SIZE_CLASS ==> self.shared_out(
                before,
                meta.cpu as int,
                meta.numa as int,
                tier,
            )
        &&& self.kept_elsewhere(before, meta.cpu as int, meta.numa as int)
    }

    /// Gives the superblocks that the processor of the thread at `meta`
    /// prefers to the pools of its node, class by class.
    pub fn thread_exit(&mut self, meta: ThreadMeta)
        requires
            old(self).wf(),
            old(self).knows(meta),
        ensures
            final(self).wf(),
            final(self).exited(*old(self), meta),
    {
        let cpu: usize = meta.cpu as usize;
        let numa: usize = meta.numa as usize;
        let mut tier: usize = 0;
        while tier < NUM_SIZE_CLASS
            invariant
                0 <= tier <= NUM_SIZE_CLASS,
                self.wf(),
                self.knows(meta),
                cpu == meta.cpu,
                numa == meta.numa,
                self.same_layout(*old(self)),
                self.spec_blocks() == old(self).spec_blocks(),
                forall|n: int| 0 <= n < old(self).spec_nodes() ==> self.pending(n) == old(self).pending(n),
                forall|n: int| 0 <= n < old(self).spec_nodes() ==> self.objects(n) == old(self).objects(n),
                self.kept_elsewhere(*old(self), cpu as int, numa as int),
                forall|t: int|
                    tier <= t < NUM_SIZE_CLASS ==> self.preferred(cpu as int, t) == old(self).preferred(
                        cpu as int,
                        t,
                    ) && self.shared(numa as int, t) == old(self).shared(numa as int, t),
                forall|t: int|
                    0 <= t < tier ==> self.shared_out(*old(self), cpu as int, numa as int, t),
            decreases NUM_SIZE_CLASS - tier,
        {
            let ghost start = *self;
            self.share_class(cpu, numa, tier);
            proof {
                assert forall|t: int| 0 <= t < tier + 1 implies self.shared_out(
                    *old(self),
                    cpu as int,
                    numa as int,
                    t,
                ) by {
                    if t < tier {
                        assert(start.shared_out(*old(self), cpu as int, numa as int, t));
                        assert(self.preferred(cpu as int, t) == start.preferred(cpu as int, t));
                        assert(self.shared(numa as int, t) == start.shared(numa as int, t));
                    } else {
                        assert(self.shared_out(start, cpu as int, numa as int, t));
                    }
                }
            }
            tier = tier + 1;
        }
    }
}

/// Superblocks at `addrs` and nodes with the given regions and cursors are
/// laid out in order: no two superblocks overlap, none reaches into the part
/// of a region behind its cursor, and no two regions overlap.
pub open spec fn layout(addrs: Seq<usize>, regions: Seq<usize>, cursors: Seq<usize>) -> bool {
    &&& regions.len() == cursors.len()
    &&& forall|i: int, j: int|
        0 <= i < addrs.len() && 0 <= j < addrs.len() && i != j ==> apart(
            #[trigger] addrs[i],
            SUPERBLOCK_CHUNK,
            #[trigger] addrs[j],
            SUPERBLOCK_CHUNK,
        )
    &&& forall|i: int, n: int|
        0 <= i < addrs.len() && 0 <= n < regions.len() ==> #[trigger] addrs[i] + SUPERBLOCK_CHUNK
            <= #[trigger] cursors[n] || addrs[i] >= regions[n] + HEAP_VIRT_SIZE
    &&& forall|n: int|
        0 <= n < regions.len() ==> #[trigger] regions[n] <= cursors[n] <= regions[n]
            + HEAP_VIRT_SIZE && cursors[n] % CACHE_LINE_SIZE == 0
    &&& forall|n: int, m: int|
        0 <= n < regions.len() && 0 <= m < regions.len() && n != m ==> apart(
            #[trigger] regions[n],
            HEAP_VIRT_SIZE,
            #[trigger] regions[m],
            HEAP_VIRT_SIZE,
        )
}

/// A superblock carved at the cursor of node `numa` keeps the layout in
/// order.
pub proof fn lemma_layout_carved(addrs: Seq<usize>, regions: Seq<usize>, cursors: Seq<usize>, numa: int)
    requires
        layout(addrs, regions, cursors),
        0 <= numa < regions.len(),
        cursors[numa] + SUPERBLOCK_CHUNK <= regions[numa] + HEAP_VIRT_SIZE,
        regions[numa] + HEAP_VIRT_SIZE <= usize::MAX,
    ensures
        cursors[numa] % CACHE_LINE_SIZE == 0,
        layout(
            addrs.push(cursors[numa]),
            regions,
            cursors.update(numa, (cursors[numa] + SUPERBLOCK_CHUNK) as usize),
        ),
{
    let addr = cursors[numa];
    let addrs1 = addrs.push(addr);
    let cursors1 = cursors.update(numa, (addr + SUPERBLOCK_CHUNK) as usize);
    let fresh = addrs.len() as int;
    assert forall|i: int, j: int|
        0 <= i < addrs1.len() && 0 <= j < addrs1.len() && i != j implies apart(
        #[trigger] addrs1[i],
        SUPERBLOCK_CHUNK,
        #[trigger] addrs1[j],
        SUPERBLOCK_CHUNK,
    ) by {
        if i != fresh && j != fresh {
            assert(apart(addrs[i], SUPERBLOCK_CHUNK, addrs[j], SUPERBLOCK_CHUNK));
        } else if i == fresh {
            assert(addrs[j] + SUPERBLOCK_CHUNK <= cursors[numa] || addrs[j] >= regions[numa]
                + HEAP_VIRT_SIZE);
        } else {
            assert(addrs[i] + SUPERBLOCK_CHUNK <= cursors[numa] || addrs[i] >= regions[numa]
                + HEAP_VIRT_SIZE);
        }
    }
    assert forall|i: int, n: int| 0 <= i < addrs1.len() && 0 <= n < regions.len() implies #[trigger] addrs1[i]
        + SUPERBLOCK_CHUNK <= #[trigger] cursors1[n] || addrs1[i] >= regions[n] + HEAP_VIRT_SIZE by {
        if i != fresh {
            assert(addrs[i] + SUPERBLOCK_CHUNK <= cursors[n] || addrs[i] >= regions[n]
                + HEAP_VIRT_SIZE);
        } else if n != numa {
            assert(apart(regions[numa], HEAP_VIRT_SIZE, regions[n], HEAP_VIRT_SIZE));
            assert(regions[n] <= cursors[n]);
            assert(regions[numa] <= cursors[numa]);
        }
    }
    assert forall|n: int| 0 <= n < regions.len() implies #[trigger] regions[n] <= cursors1[n]
        <= regions[n] + HEAP_VIRT_SIZE && cursors1[n] % CACHE_LINE_SIZE == 0 by {
        assert(regions[n] <= cursors[n]);
        if n == numa {
            lemma_sum_of_multiples(addr as int, SUPERBLOCK_CHUNK as int, CACHE_LINE_SIZE as int);
        }
    }
    assert(regions[numa] <= cursors[numa]);
}

/// A node that moves to a free region keeps the layout in order.
pub proof fn lemma_layout_moved(
    addrs: Seq<usize>,
    regions: Seq<usize>,
    cursors: Seq<usize>,
    numa: int,
    base: usize,
)
    requires
        layout(addrs, regions, cursors),
        0 <= numa < regions.len(),
        base + HEAP_VIRT_SIZE <= usize::MAX,
        base % CACHE_LINE_SIZE == 0,
        forall|i: int| 0 <= i < addrs.len() ==> apart(#[trigger] addrs[i], SUPERBLOCK_CHUNK, base, HEAP_VIRT_SIZE),
        forall|n: int|
            0 <= n < regions.len() && n != numa ==> apart(
                #[trigger] regions[n],
                HEAP_VIRT_SIZE,
                base,
                HEAP_VIRT_SIZE,
            ),
    ensures
        layout(addrs, regions.update(numa, base), cursors.update(numa, base)),
{
    let regions1 = regions.update(numa, base);
    let cursors1 = cursors.update(numa, base);
    assert forall|i: int, n: int| 0 <= i < addrs.len() && 0 <= n < regions1.len() implies #[trigger] addrs[i]
        + SUPERBLOCK_CHUNK <= #[trigger] cursors1[n] || addrs[i] >= regions1[n] + HEAP_VIRT_SIZE by {
        if n != numa {
            assert(addrs[i] + SUPERBLOCK_CHUNK <= cursors[n] || addrs[i] >= regions[n]
                + HEAP_VIRT_SIZE);
        } else {
            assert(apart(addrs[i], SUPERBLOCK_CHUNK, base, HEAP_VIRT_SIZE));
        }
    }
    assert forall|n: int| 0 <= n < regions1.len() implies #[trigger] regions1[n] <= cursors1[n]
        <= regions1[n] + HEAP_VIRT_SIZE && cursors1[n] % CACHE_LINE_SIZE == 0 by {
        if n != numa {
            assert(regions[n] <= cursors[n]);
        }
    }
    assert forall|n: int, m: int|
        0 <= n < regions1.len() && 0 <= m < regions1.len() && n != m implies apart(
        #[trigger] regions1[n],
        HEAP_VIRT_SIZE,
        #[trigger] regions1[m],
        HEAP_VIRT_SIZE,
    ) by {
        if n != numa && m != numa {
            assert(apart(regions[n], HEAP_VIRT_SIZE, regions[m], HEAP_VIRT_SIZE));
        } else if n == numa {
            assert(apart(regions[m], HEAP_VIRT_SIZE, base, HEAP_VIRT_SIZE));
        } else {
            assert(apart(regions[n], HEAP_VIRT_SIZE, base, HEAP_VIRT_SIZE));
        }
    }
}

/// `handle` names a superblock of node `numa` among `blocks` that has handed
/// out the object at `addr`.
pub open spec fn handle_owns(blocks: Seq<SuperBlock>, numa: int, addr: usize, handle: usize) -> bool {
    &&& handle >= HANDLE_BASE
    &&& handle - HANDLE_BASE < blocks.len()
    &&& blocks[handle - HANDLE_BASE].owns(addr)
    &&& blocks[handle - HANDLE_BASE].spec_numa() == numa
}

/// The range of `len_a` bytes at `a` and the range of `len_b` bytes at `b`
/// have no byte in common.
pub open spec fn apart(a: usize, len_a: usize, b: usize, len_b: usize) -> bool {
    a + len_a <= b || b + len_b <= a
}

/// The number of processors among `cpu_nodes` that lie on node `numa`.
pub open spec fn spec_count_cpus(cpu_nodes: Seq<u16>, numa: u16) -> nat
    decreases cpu_nodes.len(),
{
    if cpu_nodes.len() == 0 {
        0
    } else if cpu_nodes.last() == numa {
        spec_count_cpus(cpu_nodes.drop_last(), numa) + 1
    } else {
        spec_count_cpus(cpu_nodes.drop_last(), numa)
    }
}

/// The number of processors among `cpu_nodes` that lie on node `numa`.
pub fn count_cpus(cpu_nodes: &Vec<u16>, numa: u16) -> (r: usize)
    ensures
        r == spec_count_cpus(cpu_nodes@, numa),
        r <= cpu_nodes@.len(),
{
    let mut count: usize = 0;
    let mut c: usize = 0;
    while c < cpu_nodes.len()
        invariant
            0 <= c <= cpu_nodes@.len(),
            count == spec_count_cpus(cpu_nodes@.take(c as int), numa),
            count <= c,
        decreases cpu_nodes@.len() - c,
    {
        proof {
            assert(cpu_nodes@.take(c as int + 1).drop_last() =~= cpu_nodes@.take(c as int));
        }
        if cpu_nodes[c] == numa {
            count = count + 1;
        }
        c = c + 1;
    }
    proof {
        assert(cpu_nodes@.take(cpu_nodes@.len() as int) =~= cpu_nodes@);
    }
    count
}

/// A handle is a word that the lists and the index of objects can hold.
proof fn lemma_handle_storable(index: usize)
    requires
        index < MAX_CAPACITY,
    ensures
        storable((index + HANDLE_BASE) as usize),
        index + HANDLE_BASE != 0,
        index + HANDLE_BASE != 1,
{
}

/// A small object belongs to one of the small classes, and fits an object
/// of its class.
pub proof fn lemma_small_tier(size: nat)
    requires
        size <= MAXIMUM_SMALL_SIZE,
    ensures
        size_class_index(size) < NUM_SIZE_CLASS,
        size <= class_size(size_class_index(size)),
{
    if size >= 2 {
        crate::utils::lemma_log2_bounds(size);
        crate::utils::lemma_size_class_index(size);
        if crate::utils::log2_floor(size) >= 17 {
            crate::utils::lemma_pow2_monotonic(17, crate::utils::log2_floor(size));
            reveal_with_fuel(pow2, 18);
        }
        if crate::utils::log2_floor(size) == 16 {
            reveal_with_fuel(pow2, 18);
            assert(size == 65536);
            crate::utils::lemma_pow2_is_pow2(16);
        }
    } else {
        reveal_with_fuel(pow2, 3);
    }
}

} // verus!
