//! A small deterministic pseudo-random generator (xorshift64).
//!
//! The engine takes randomness as an injectable, seedable capability rather
//! than hidden global state, so generation and mutation stay deterministic
//! functions of the seed and are fully specified by the contracts below.

use vstd::prelude::*;

verus! {

/// One xorshift64 step: the next generator state (and the value drawn).
pub open spec fn step(x: u64) -> u64 {
    let a = x ^ (x << 13);
    let b = a ^ (a >> 7);
    b ^ (b << 17)
}

/// The generator state after `k` draws starting from state `s0`.
pub open spec fn states(s0: u64, k: nat) -> u64
    decreases k,
{
    if k == 0 {
        s0
    } else {
        step(states(s0, (k - 1) as nat))
    }
}

/// The value returned by the `k`-th draw (counting from 0) from state `s0`.
pub open spec fn draw(s0: u64, k: nat) -> u64 {
    states(s0, k + 1)
}

/// A seedable xorshift64 generator. The all-zero state is the one fixed
/// point of the xorshift map, so seeding replaces 0 by a nonzero default.
pub struct Rng {
    pub state: u64,
}

impl Rng {
    pub fn new(seed: u64) -> (r: Rng)
        ensures
            r.state == if seed == 0 {
                0x9E3779B97F4A7C15u64
            } else {
                seed
            },
    {
        if seed == 0 {
            Rng { state: 0x9E3779B97F4A7C15 }
        } else {
            Rng { state: seed }
        }
    }

    pub fn next_u64(&mut self) -> (r: u64)
        ensures
            r == step(old(self).state),
            final(self).state == step(old(self).state),
    {
        let x0 = self.state;
        let x1 = x0 ^ (x0 << 13);
        let x2 = x1 ^ (x1 >> 7);
        let x3 = x2 ^ (x2 << 17);
        self.state = x3;
        x3
    }
}

} // verus!
