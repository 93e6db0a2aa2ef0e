//! The generator a run is drawn from.
//!
//! A run reproduces from its seed, which is worth more to a load generator than
//! a better generator would be.

use vstd::prelude::*;

verus! {

/// The seed of a run, fixed so that a run reproduces.
pub const SEED: u64 = 0x4845_5244;

/// The state that follows `x`, by xorshift64.
pub open spec fn scramble(x: u64) -> u64 {
    let a = x ^ (x << 13u64);
    let b = a ^ (a >> 7u64);
    b ^ (b << 17u64)
}

/// What one draw below `bound` gives when the state is `s`. The state moves on
/// to `scramble(s)`.
pub open spec fn drawn(s: u64, bound: int) -> int {
    scramble(s) as int % bound
}

/// The state a run starts in.
pub open spec fn seeded(seed: u64) -> u64 {
    seed | 1
}

/// The state after `k` draws from `s`.
pub open spec fn stream(s: u64, k: nat) -> u64
    decreases k,
{
    if k == 0 {
        s
    } else {
        scramble(stream(s, (k - 1) as nat))
    }
}

/// A xorshift64 generator.
pub struct Rng {
    state: u64,
}

impl View for Rng {
    type V = u64;

    closed spec fn view(&self) -> u64 {
        self.state
    }
}

impl Rng {
    /// Starts a run. The low bit is set, because the generator is stuck at zero.
    pub fn new(seed: u64) -> (rng: Rng)
        ensures
            rng@ == seeded(seed),
    {
        Rng { state: seed | 1 }
    }

    /// The next 64 bits.
    pub fn next_u64(&mut self) -> (x: u64)
        ensures
            x == scramble(old(self)@),
            final(self)@ == scramble(old(self)@),
    {
        let mut x: u64 = self.state;
        x = x ^ (x << 13);
        x = x ^ (x >> 7);
        x = x ^ (x << 17);
        self.state = x;
        x
    }

    /// A number below `bound`.
    pub fn below(&mut self, bound: u32) -> (n: u32)
        requires
            bound > 0,
        ensures
            n == drawn(old(self)@, bound as int),
            n < bound,
            final(self)@ == scramble(old(self)@),
    {
        (self.next_u64() % bound as u64) as u32
    }

    /// Signed, in `-bound..=bound`.
    pub fn spread(&mut self, bound: i32) -> (n: i32)
        requires
            0 <= bound < 0x4000_0000,
        ensures
            n == drawn(old(self)@, 2 * bound + 1) - bound,
            -bound <= n <= bound,
            final(self)@ == scramble(old(self)@),
    {
        self.below(2 * bound as u32 + 1) as i32 - bound
    }
}

/// A coordinate in `lo..=hi`, raw.
pub fn rng_in(rng: &mut Rng, lo: i32, hi: i32) -> (v: i32)
    requires
        lo <= hi,
        hi - lo <= i32::MAX,
    ensures
        v == lo + drawn(old(rng)@, hi - lo + 1),
        lo <= v <= hi,
        final(rng)@ == scramble(old(rng)@),
{
    lo + rng.below((hi - lo) as u32 + 1) as i32
}

/// The generator never gets stuck: no number of draws from a seeded state leaves
/// it at zero, the one state that xorshift64 cannot leave.
pub proof fn a_run_never_sticks(seed: u64, k: nat)
    ensures
        stream(seeded(seed), k) != 0,
        scramble(0) == 0,
    decreases k,
{
    assert(scramble(0) == 0) by {
        assert((0u64 ^ (0u64 << 13u64)) == 0) by (bit_vector);
        assert((0u64 ^ (0u64 >> 7u64)) == 0) by (bit_vector);
        assert((0u64 ^ (0u64 << 17u64)) == 0) by (bit_vector);
    }
    if k == 0 {
        assert(seed | 1 != 0) by (bit_vector);
    } else {
        a_run_never_sticks(seed, (k - 1) as nat);
        scramble_moves_on(stream(seeded(seed), (k - 1) as nat));
    }
}

/// A state other than zero is followed by one other than zero.
proof fn scramble_moves_on(x: u64)
    requires
        x != 0,
    ensures
        scramble(x) != 0,
{
    let a = x ^ (x << 13u64);
    assert(a != 0) by (bit_vector)
        requires
            x != 0,
            a == x ^ (x << 13u64),
    ;
    let b = a ^ (a >> 7u64);
    assert(b != 0) by (bit_vector)
        requires
            a != 0,
            b == a ^ (a >> 7u64),
    ;
    assert(b ^ (b << 17u64) != 0) by (bit_vector)
        requires
            b != 0,
    ;
}

/// An even seed draws the same run as the odd one above it.
pub proof fn an_even_seed_is_the_odd_one_above(seed: u64, k: nat)
    requires
        seed % 2 == 0,
    ensures
        stream(seeded(seed), k) == stream(seeded((seed + 1) as u64), k),
{
    let above = (seed + 1) as u64;
    assert(seed | 1 == above | 1) by (bit_vector)
        requires
            seed % 2 == 0,
            above == (seed + 1) as u64,
    ;
}

} // verus!
