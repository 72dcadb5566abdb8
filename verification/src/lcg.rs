//! A linear-congruential generator used by drivers to fill benchmark
//! buffers with a deterministic key stream.

use vstd::prelude::*;

verus! {

/// Multiplier (Knuth's MMIX constants).
pub const A: u64 = 6364136223846793005;
/// Increment (Knuth's MMIX constants).
pub const C: u64 = 1442695040888963407;

/// One step of the generator: `x * A + C`, modulo 2^64.
pub open spec fn lcg_step(x: u64) -> u64 {
    (((x * A) + C) % 0x1_0000_0000_0000_0000) as u64
}

/// The state after `i` steps from seed `x0`.
pub open spec fn lcg_state(x0: u64, i: nat) -> u64
    decreases i,
{
    if i == 0 {
        x0
    } else {
        lcg_step(lcg_state(x0, (i - 1) as nat))
    }
}

/// The first `n` outputs drawn from seed `x0`.
pub open spec fn lcg_stream(x0: u64, n: nat) -> Seq<u64>
    decreases n,
{
    if n == 0 {
        Seq::empty()
    } else {
        lcg_stream(x0, (n - 1) as nat).push(lcg_state(x0, (n - 1) as nat))
    }
}

pub struct LCG {
    x: u64,
}

impl LCG {
    /// The current state.
    pub closed spec fn state(self) -> u64 {
        self.x
    }

    /// A fresh generator, seeded with the multiplier itself.
    pub fn new() -> (r: Self)
        ensures
            r.state() == A,
    {
        Self { x: A }
    }

    /// Returns the current state and advances by one step.
    pub fn next(&mut self) -> (r: u64)
        ensures
            r == old(self).state(),
            final(self).state() == lcg_step(old(self).state()),
    {
        let ret = self.x;
        self.x = ret.wrapping_mul(A).wrapping_add(C);
        proof {
            lemma_wrapping_matches_step(ret);
        }
        ret
    }

    /// Returns the current state beside the advanced generator.
    pub fn next_owning(self) -> (r: (u64, Self))
        ensures
            r.0 == self.state(),
            r.1.state() == lcg_step(self.state()),
    {
        let ret = self.x;
        let x = ret.wrapping_mul(A).wrapping_add(C);
        proof {
            lemma_wrapping_matches_step(ret);
        }
        (ret, Self { x })
    }
}

proof fn lemma_wrapping_matches_step(x: u64)
    ensures
        ((((x * A) % 0x1_0000_0000_0000_0000) + C) % 0x1_0000_0000_0000_0000) as u64 == lcg_step(x),
{
    let m = 0x1_0000_0000_0000_0000;
    let p = x * A;
    assert(((p % m) + C) % m == (p + C) % m) by {
        vstd::arithmetic::div_mod::lemma_add_mod_noop(p, C as int, m);
        vstd::arithmetic::div_mod::lemma_mod_twice(C as int, m);
        vstd::arithmetic::div_mod::lemma_small_mod(C as nat, m as nat);
    }
}

/// The stream drawn from a seed is reproducible: it is determined, output
/// by output, by the seed and the generator's constants alone.
pub proof fn lemma_lcg_deterministic(x0: u64, n: nat)
    ensures
        lcg_stream(x0, n).len() == n,
        forall|i: int| 0 <= i < n ==> lcg_stream(x0, n)[i] == lcg_state(x0, i as nat),
    decreases n,
{
    if n > 0 {
        lemma_lcg_deterministic(x0, (n - 1) as nat);
    }
}

} // verus!
