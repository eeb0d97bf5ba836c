//! Word arithmetic shared by the heaps and the collections: powers of two,
//! logarithms, alignment padding and the address hash.

use vstd::prelude::*;

verus! {

/// Size of a cache line in bytes.
pub const CACHE_LINE_SIZE: usize = 64;

/// The largest power of two that a machine word can hold.
pub const MAX_POWER_OF_2: usize = usize::MAX / 2 + 1;

/// Number of trailing zero bits that the address hash may discard.
pub const HASH_SHIFT_LIMIT: usize = 4;

/// `n` is a power of two: 1, 2, 4, ...
pub open spec fn is_pow2(n: nat) -> bool
    decreases n,
{
    if n <= 1 {
        n == 1
    } else {
        n % 2 == 0 && is_pow2(n / 2)
    }
}

/// Two to the power `e`.
pub open spec fn pow2(e: nat) -> nat
    decreases e,
{
    if e == 0 {
        1
    } else {
        2 * pow2((e - 1) as nat)
    }
}

/// The smallest power of two that is at least `v`.
pub open spec fn next_pow2(v: nat) -> nat
    decreases v,
{
    if v <= 1 {
        1
    } else {
        2 * next_pow2((v + 1) / 2)
    }
}

/// The position of the highest set bit of `n`: the floor of its binary logarithm.
pub open spec fn log2_floor(n: nat) -> nat
    decreases n,
{
    if n <= 1 {
        0
    } else {
        1 + log2_floor(n / 2)
    }
}

/// Distance from `len` up to the next multiple of `align`.
pub open spec fn padding_to(len: nat, align: nat) -> nat
    recommends
        align > 0,
{
    ((align - len % align) % (align as int)) as nat
}

/// `i` with up to `budget` trailing zero bits shifted out.
pub open spec fn shift_out_zeros(i: nat, budget: nat) -> nat
    decreases budget,
{
    if budget == 0 || i == 0 || i % 2 == 1 {
        i
    } else {
        shift_out_zeros(i / 2, (budget - 1) as nat)
    }
}

/// The hash of an address: the address without its low zero bits, of which at
/// most `HASH_SHIFT_LIMIT` are dropped.
pub open spec fn address_hash(i: usize) -> nat {
    shift_out_zeros(i as nat, HASH_SHIFT_LIMIT as nat)
}

/// The index of the smallest size class that holds `size` bytes, where class
/// `i` holds `pow2(i + 1)` bytes.
pub open spec fn size_class_index(size: nat) -> nat {
    if size < 2 {
        0
    } else if is_pow2(size) {
        (log2_floor(size) - 1) as nat
    } else {
        log2_floor(size)
    }
}

/// Powers of two are positive.
pub proof fn lemma_pow2_positive(e: nat)
    ensures
        pow2(e) > 0,
    decreases e,
{
    if e > 0 {
        lemma_pow2_positive((e - 1) as nat);
    }
}

/// A larger exponent gives no smaller power of two.
pub proof fn lemma_pow2_monotonic(a: nat, b: nat)
    requires
        a <= b,
    ensures
        pow2(a) <= pow2(b),
    decreases b,
{
    if a < b {
        lemma_pow2_monotonic(a, (b - 1) as nat);
    }
}

/// Every `pow2(e)` is a power of two, and its logarithm is `e`.
pub proof fn lemma_pow2_is_pow2(e: nat)
    ensures
        is_pow2(pow2(e)),
        log2_floor(pow2(e)) == e,
    decreases e,
{
    if e > 0 {
        lemma_pow2_is_pow2((e - 1) as nat);
        lemma_pow2_positive((e - 1) as nat);
        assert(pow2(e) / 2 == pow2((e - 1) as nat));
    }
}

/// A power of two is two to the power of its logarithm.
pub proof fn lemma_is_pow2_log(n: nat)
    requires
        is_pow2(n),
    ensures
        n == pow2(log2_floor(n)),
    decreases n,
{
    if n > 1 {
        lemma_is_pow2_log(n / 2);
    }
}

/// The logarithm brackets its argument between two neighbouring powers of two.
pub proof fn lemma_log2_bounds(n: nat)
    requires
        n > 0,
    ensures
        pow2(log2_floor(n)) <= n < pow2(log2_floor(n) + 1),
    decreases n,
{
    if n > 1 {
        lemma_log2_bounds(n / 2);
    }
}

/// `next_pow2(v)` is a power of two, is at least `v`, and no smaller power of
/// two is.
pub proof fn lemma_next_pow2(v: nat)
    ensures
        is_pow2(next_pow2(v)),
        next_pow2(v) >= v,
        next_pow2(v) >= 1,
        v > 1 ==> next_pow2(v) / 2 < v,
        v <= 1 ==> next_pow2(v) == 1,
    decreases v,
{
    if v > 1 {
        lemma_next_pow2((v + 1) / 2);
    }
}

/// A power of two that is at least `v`, and whose half is not, is `next_pow2(v)`.
pub proof fn lemma_next_pow2_unique(p: nat, v: nat)
    requires
        is_pow2(p),
        p >= v,
        p == 1 || p / 2 < v,
    ensures
        p == next_pow2(v),
    decreases p,
{
    if p > 1 {
        if v > 1 {
            lemma_next_pow2_unique(p / 2, (v + 1) / 2);
        } else {
            assert(p / 2 >= 1);
        }
    }
}

/// `next_pow2` does not step over a power of two.
pub proof fn lemma_next_pow2_bound(v: nat, bound: nat)
    requires
        v <= bound,
        is_pow2(bound),
    ensures
        next_pow2(v) <= bound,
    decreases v,
{
    if v > 1 {
        assert(bound % 2 == 0 && is_pow2(bound / 2));
        lemma_next_pow2_bound((v + 1) / 2, bound / 2);
    }
}

/// A power of two within half a region of 128 MiB has a logarithm of at most
/// 26.
pub proof fn lemma_log2_region(p: nat)
    requires
        is_pow2(p),
        p <= 0x400_0000,
    ensures
        log2_floor(p) <= 26,
        size_class_index(p) < 32,
{
    lemma_is_pow2_log(p);
    if log2_floor(p) > 26 {
        lemma_pow2_monotonic(27, log2_floor(p));
        reveal_with_fuel(pow2, 28);
    }
}

/// The padding is smaller than the alignment and completes `len` to a multiple
/// of it.
pub proof fn lemma_padding_to(len: nat, align: nat)
    requires
        align > 0,
    ensures
        padding_to(len, align) < align,
        (len + padding_to(len, align)) % align == 0,
        len % align == 0 ==> padding_to(len, align) == 0,
{
    let r = len % align;
    if r == 0 {
        assert((align - 0) % (align as int) == 0) by (nonlinear_arith)
            requires
                align > 0,
        ;
    } else {
        assert((align - r) % (align as int) == align - r) by (nonlinear_arith)
            requires
                0 < r < align,
        ;
        assert((len + (align - r)) % (align as int) == 0) by (nonlinear_arith)
            requires
                r == len % align,
                align > 0,
                0 < r < align,
        ;
    }
}

/// The size class chosen for `size` is the first one that is large enough.
pub proof fn lemma_size_class_index(size: nat)
    requires
        size > 0,
    ensures
        size <= pow2(size_class_index(size) + 1),
        size_class_index(size) > 0 ==> pow2(size_class_index(size)) < size,
{
    lemma_log2_bounds(size);
    if size >= 2 && is_pow2(size) {
        lemma_is_pow2_log(size);
        let l = log2_floor(size);
        assert(l >= 1);
        if l >= 2 {
            lemma_pow2_monotonic((l - 1) as nat, (l - 1) as nat);
            assert(pow2(l) == 2 * pow2((l - 1) as nat));
            lemma_pow2_positive((l - 1) as nat);
        }
    } else if size >= 2 {
        let l = log2_floor(size);
        if pow2(l) == size {
            lemma_pow2_is_pow2(l);
        }
    } else {
        assert(pow2(1) == 2 * pow2(0));
    }
}

/// Hasher for addresses: allocated addresses are aligned, so their low bits
/// carry nothing and are dropped before the address is used as a hash.
pub struct AddressHasher {
    num: u64,
}

impl AddressHasher {
    /// The hash accumulated so far.
    pub closed spec fn spec_finish(&self) -> u64 {
        self.num
    }

    /// The accumulated hash.
    #[verifier::when_used_as_spec(spec_finish)]
    pub fn finish(&self) -> (r: u64)
        ensures
            r == self.spec_finish(),
    {
        self.num
    }

    /// Replaces the hash by that of the word `i`.
    pub fn write_usize(&mut self, i: usize)
        ensures
            final(self).spec_finish() == address_hash(i),
    {
        self.num = hash_address(i) as u64;
    }
}

impl Default for AddressHasher {
    fn default() -> (r: Self)
        ensures
            r.spec_finish() == 0,
    {
        Self { num: 0 }
    }
}

/// The address hash of `i` as a word.
pub fn hash_address(i: usize) -> (r: usize)
    ensures
        r == address_hash(i),
        r <= i,
{
    let mut n: usize = i;
    let mut budget: usize = HASH_SHIFT_LIMIT;
    while budget > 0 && n != 0 && n % 2 == 0
        invariant
            budget <= HASH_SHIFT_LIMIT,
            n <= i,
            shift_out_zeros(n as nat, budget as nat) == address_hash(i),
        decreases budget,
    {
        n = n / 2;
        budget = budget - 1;
    }
    n
}

/// The number of bytes to add to `len` to reach a multiple of `align`.
pub fn align_padding(len: usize, align: usize) -> (r: usize)
    requires
        align > 0,
    ensures
        r == padding_to(len as nat, align as nat),
        r < align,
{
    proof {
        lemma_padding_to(len as nat, align as nat);
    }
    let rem: usize = len % align;
    if rem == 0 {
        0
    } else {
        assert((align - rem) % (align as int) == align - rem) by (nonlinear_arith)
            requires
                0 < rem < align,
        ;
        align - rem
    }
}

/// Whether `x` is a power of two.  Zero is none.
pub fn is_power_of_2(x: usize) -> (r: bool)
    ensures
        r == is_pow2(x as nat),
{
    if x == 0 {
        return false;
    }
    let mut n: usize = x;
    while n % 2 == 0
        invariant
            n > 0,
            is_pow2(n as nat) == is_pow2(x as nat),
        decreases n,
    {
        n = n / 2;
    }
    n == 1
}

/// The smallest power of two that is at least `v`.
pub fn upper_power_of_2(v: usize) -> (r: usize)
    requires
        0 < v <= MAX_POWER_OF_2,
    ensures
        r == next_pow2(v as nat),
{
    min_power_of_2(v)
}

/// The smallest power of two that is at least `n`; it is 1 for `n == 0`.
pub fn min_power_of_2(n: usize) -> (r: usize)
    requires
        n <= MAX_POWER_OF_2,
    ensures
        r == next_pow2(n as nat),
{
    let mut p: usize = 1;
    while p < n
        invariant
            n <= MAX_POWER_OF_2,
            p >= 1,
            is_pow2(p as nat),
            p == 1 || p / 2 < n,
        decreases (if p < n { n - p } else { 0 }),
    {
        p = p * 2;
    }
    proof {
        lemma_next_pow2_unique(p as nat, n as nat);
    }
    p
}

/// The floor of the binary logarithm of `num`.
pub fn log_2_of(num: usize) -> (r: usize)
    requires
        num > 0,
    ensures
        r == log2_floor(num as nat),
        r < usize::BITS,
{
    proof {
        lemma_log2_word(num as nat);
    }
    let mut n: usize = num;
    let mut r: usize = 0;
    while n > 1
        invariant
            n > 0,
            r + log2_floor(n as nat) == log2_floor(num as nat),
            log2_floor(num as nat) < usize::BITS,
        decreases n,
    {
        n = n / 2;
        r = r + 1;
    }
    r
}

/// The logarithm of a word is smaller than the word width.
pub proof fn lemma_log2_word(n: nat)
    requires
        0 < n <= usize::MAX,
    ensures
        log2_floor(n) < usize::BITS,
{
    lemma_log2_bounds(n);
    lemma_pow2_word_limit();
    if log2_floor(n) >= usize::BITS {
        lemma_pow2_monotonic(usize::BITS as nat, log2_floor(n));
    }
}

/// Exponents add up under multiplication.
pub proof fn lemma_pow2_adds(a: nat, b: nat)
    ensures
        pow2(a + b) == pow2(a) * pow2(b),
    decreases a,
{
    if a > 0 {
        lemma_pow2_adds((a - 1) as nat, b);
        assert(pow2(a + b) == 2 * pow2((a - 1) as nat + b));
        assert(2 * (pow2((a - 1) as nat) * pow2(b)) == (2 * pow2((a - 1) as nat)) * pow2(b))
            by (nonlinear_arith);
    } else {
        assert(pow2(0) == 1);
        assert(1 * pow2(b) == pow2(b));
    }
}

/// Two to the power of the word width exceeds every word.
pub proof fn lemma_pow2_word_limit()
    ensures
        pow2(usize::BITS as nat) == usize::MAX + 1,
        pow2((usize::BITS - 1) as nat) == MAX_POWER_OF_2,
{
    reveal_with_fuel(pow2, 9);
    assert(pow2(8) == 0x100);
    lemma_pow2_adds(8, 8);
    assert(pow2(16) == 0x1_0000);
    lemma_pow2_adds(16, 16);
    assert(pow2(32) == 0x1_0000_0000);
    lemma_pow2_adds(32, 32);
    assert(pow2(64) == 0x1_0000_0000_0000_0000);
    assert(pow2(32) == 2 * pow2(31));
    assert(pow2(64) == 2 * pow2(63));
}

/// The index of the smallest size class that holds `size` bytes.
pub fn size_class_index_from_size(size: usize) -> (r: usize)
    ensures
        r == size_class_index(size as nat),
        r < usize::BITS,
{
    if size < 2 {
        return 0;
    }
    let log: usize = log_2_of(size);
    if is_power_of_2(size) && log > 0 {
        log - 1
    } else {
        log
    }
}

} // verus!
