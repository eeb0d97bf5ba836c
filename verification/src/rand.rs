//! A small xorshift generator.

use vstd::prelude::*;

verus! {

/// The state that follows `x`: three xorshift rounds, the second of which
/// shifts the word that the first one started from.
pub open spec fn xor_step(x: usize) -> usize {
    let first = x ^ (x << 13usize);
    let second = first ^ (x >> 7usize);
    second ^ (first << 17usize)
}

/// Xorshift generator over one word of state.
pub struct XorRand {
    x: usize,
}

impl XorRand {
    /// The state.
    pub closed spec fn view(&self) -> usize {
        self.x
    }

    /// A generator that starts from `seed`.
    pub fn new(seed: usize) -> (r: Self)
        ensures
            r@ == seed,
    {
        Self { x: seed }
    }

    /// Advances the state and returns it.
    pub fn rand(&mut self) -> (r: usize)
        ensures
            r == xor_step(old(self)@),
            final(self)@ == r,
    {
        let x: usize = self.x;
        let first: usize = x ^ (x << 13usize);
        let second: usize = first ^ (x >> 7usize);
        self.x = second ^ (first << 17usize);
        self.x
    }

    /// Advances the state and maps it into `a..=b`.
    pub fn rand_range(&mut self, a: usize, b: usize) -> (r: usize)
        requires
            a <= b,
            b - a < usize::MAX,
        ensures
            final(self)@ == xor_step(old(self)@),
            r == a + final(self)@ % ((b - a + 1) as usize),
            a <= r <= b,
    {
        let m: usize = b - a + 1;
        a + self.rand() % m
    }
}

} // verus!
