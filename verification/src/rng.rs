//! PCG32 (XSH-RR), hand-rolled so a seed fully determines a run on every
//! platform. Same seed in, same stream out.

use vstd::prelude::*;

verus! {

/// The LCG multiplier of PCG32.
pub const PCG_MUL: u64 = 6364136223846793005u64;

/// The stream increment every generator here uses (odd, as PCG needs).
pub const PCG_INC: u64 = (0xda3e39cb94b95bdbu64 << 1u64) | 1u64;

/// One LCG step of the state.
pub open spec fn pcg_advance(state: u64, inc: u64) -> u64 {
    state.wrapping_mul(PCG_MUL).wrapping_add(inc)
}

/// `x` rotated right by `r` bits (`r < 32`).
pub open spec fn rotr32(x: u32, r: u32) -> u32 {
    if r == 0 {
        x
    } else {
        (x >> r) | (x << ((32 - r) as u32))
    }
}

/// The 32-bit output PCG32 derives from the state before a step:
/// xorshift-high, then a rotation chosen by the top five bits.
pub open spec fn pcg_output(old: u64) -> u32 {
    rotr32((((old >> 18u64) ^ old) >> 27u64) as u32, (old >> 59u64) as u32)
}

/// The state a generator seeded with `seed` starts in.
pub open spec fn pcg_seeded(seed: u64) -> u64 {
    pcg_advance(pcg_advance(0, PCG_INC).wrapping_add(seed), PCG_INC)
}

pub struct Pcg32 {
    state: u64,
    inc: u64,
}

impl View for Pcg32 {
    type V = (u64, u64);

    closed spec fn view(&self) -> (u64, u64) {
        (self.state, self.inc)
    }
}

fn rotate_right(x: u32, r: u32) -> (y: u32)
    requires
        r < 32,
    ensures
        y == rotr32(x, r),
{
    if r == 0 {
        x
    } else {
        (x >> r) | (x << (32 - r))
    }
}

impl Pcg32 {
    pub fn new(seed: u64) -> (r: Pcg32)
        ensures
            r@ == (pcg_seeded(seed), PCG_INC),
    {
        let mut r = Pcg32 { state: 0, inc: PCG_INC };
        r.next_u32();
        r.state = r.state.wrapping_add(seed);
        r.next_u32();
        r
    }

    pub fn next_u32(&mut self) -> (x: u32)
        ensures
            x == pcg_output(old(self)@.0),
            final(self)@ == (pcg_advance(old(self)@.0, old(self)@.1), old(self)@.1),
    {
        let old = self.state;
        self.state = old.wrapping_mul(PCG_MUL).wrapping_add(self.inc);
        let xorshifted = (((old >> 18) ^ old) >> 27) as u32;
        let rot = (old >> 59) as u32;
        assert(old >> 59u64 < 32) by (bit_vector);
        rotate_right(xorshifted, rot)
    }

    /// Uniform in `0..n`, with the modulo bias that is irrelevant at the
    /// sizes used here.
    pub fn below(&mut self, n: u32) -> (x: u32)
        requires
            n > 0,
        ensures
            x == pcg_output(old(self)@.0) % n,
            x < n,
            final(self)@ == (pcg_advance(old(self)@.0, old(self)@.1), old(self)@.1),
    {
        self.next_u32() % n
    }
}

} // verus!
