//! Deterministic RNG. The world owns exactly one; scripts draw from it too.
use vstd::prelude::*;

verus! {

/// The step the state advances by on every draw (the golden ratio in 64 bits).
pub const GOLDEN: u64 = 0x9E37_79B9_7F4A_7C15;

/// What a seed is whitened with before it becomes a state.
pub const SEED_SALT: u64 = 0xD1B5_4A32_D192_ED03;

/// The SplitMix64 finalizer, as a function on 64-bit words.
pub open spec fn mix_spec(z0: u64) -> u64 {
    let z1 = vstd::wrapping::u64_specs::wrapping_mul(z0 ^ (z0 >> 30u64), 0xBF58_476D_1CE4_E5B9u64);
    let z2 = vstd::wrapping::u64_specs::wrapping_mul(z1 ^ (z1 >> 27u64), 0x94D0_49BB_1331_11EBu64);
    z2 ^ (z2 >> 31u64)
}

/// The state after one draw.
pub open spec fn advance(state: u64) -> u64 {
    vstd::wrapping::u64_specs::wrapping_add(state, GOLDEN)
}

/// The number a draw from `state` yields.
pub open spec fn draw_spec(state: u64) -> u64 {
    mix_spec(advance(state))
}

/// A uniform pick in `0..n` from one raw draw `v`: the top 32 bits scaled
/// by `n`. Zero when `n` is zero.
pub open spec fn scale_below(v: u64, n: u32) -> u32 {
    if n == 0 {
        0
    } else {
        (((v >> 32u64) as int * n as int) / 0x1_0000_0000) as u32
    }
}

/// The stateless hash of a coordinate under a seed.
pub open spec fn hash2_spec(x: i64, y: i64, seed: u64) -> u64 {
    mix_spec(
        seed ^ mix_spec(
            vstd::wrapping::u64_specs::wrapping_mul(x as u64, 0x9E37_79B9u64) ^ mix_spec(
                (y as u64) ^ 0x5bd1_e995u64,
            ),
        ),
    )
}

#[derive(Clone, Debug)]
pub struct Rng {
    state: u64,
}

impl View for Rng {
    type V = u64;

    /// The whole state of the generator.
    closed spec fn view(&self) -> u64 {
        self.state
    }
}

impl Rng {
    pub fn new(seed: u64) -> (r: Self)
        ensures
            r@ == mix_spec(seed ^ SEED_SALT),
    {
        Rng { state: mix(seed ^ SEED_SALT) }
    }

    pub fn next_u64(&mut self) -> (r: u64)
        ensures
            final(self)@ == advance(old(self)@),
            r == draw_spec(old(self)@),
    {
        self.state = self.state.wrapping_add(GOLDEN);
        mix(self.state)
    }

    /// Uniform in `0..n`.
    pub fn below(&mut self, n: u32) -> (r: u32)
        ensures
            n == 0 ==> r == 0 && final(self)@ == old(self)@,
            n != 0 ==> r == scale_below(draw_spec(old(self)@), n) && final(self)@ == advance(
                old(self)@,
            ),
            n != 0 ==> r < n,
    {
        if n == 0 {
            return 0;
        }
        let v = self.next_u64();
        let top: u64 = v >> 32u64;
        assert(top < 0x1_0000_0000) by (bit_vector)
            requires
                top == v >> 32u64,
        ;
        assert(top * (n as u64) < 0x1_0000_0000 * (n as int)) by (nonlinear_arith)
            requires
                top < 0x1_0000_0000,
                n > 0,
        ;
        let prod: u64 = top * (n as u64);
        let r: u64 = prod >> 32u64;
        assert(r == prod / 0x1_0000_0000) by (bit_vector)
            requires
                r == prod >> 32u64,
        ;
        assert(prod / 0x1_0000_0000 < n as int) by (nonlinear_arith)
            requires
                prod < 0x1_0000_0000 * (n as int),
                n > 0,
        ;
        r as u32
    }

    /// Uniform in `lo..=hi`; `lo` when the range is empty.
    pub fn range(&mut self, lo: i32, hi: i32) -> (r: i32)
        requires
            hi <= lo || hi - lo + 1 <= i32::MAX,
        ensures
            hi <= lo ==> r == lo && final(self)@ == old(self)@,
            hi > lo ==> r == lo + scale_below(draw_spec(old(self)@), (hi - lo + 1) as u32)
                && final(self)@ == advance(old(self)@),
            hi > lo ==> lo <= r <= hi,
    {
        if hi <= lo {
            lo
        } else {
            lo + self.below((hi - lo + 1) as u32) as i32
        }
    }

    /// Resume from a saved `state()`.
    pub fn from_state(state: u64) -> (r: Self)
        ensures
            r@ == state,
    {
        Rng { state }
    }

    pub fn state(&self) -> (r: u64)
        ensures
            r == self@,
    {
        self.state
    }
}

/// SplitMix64 finalizer.
pub fn mix(z: u64) -> (r: u64)
    ensures
        r == mix_spec(z),
{
    let z1 = (z ^ (z >> 30u64)).wrapping_mul(0xBF58_476D_1CE4_E5B9u64);
    let z2 = (z1 ^ (z1 >> 27u64)).wrapping_mul(0x94D0_49BB_1331_11EBu64);
    z2 ^ (z2 >> 31u64)
}

/// Stateless hash of a coordinate — for map generation and cosmetic noise.
pub fn hash2(x: i64, y: i64, seed: u64) -> (r: u64)
    ensures
        r == hash2_spec(x, y, seed),
{
    mix(seed ^ mix((x as u64).wrapping_mul(0x9E37_79B9u64) ^ mix((y as u64) ^ 0x5bd1_e995u64)))
}

} // verus!
