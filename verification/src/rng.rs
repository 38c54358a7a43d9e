//! A small xorshift-based pseudo-random number generator used to pick
//! existing inputs from the corpus.

use vstd::prelude::*;

verus! {

/// One xorshift round over a 64-bit state.
pub open spec fn xorshift_step(s: u64) -> u64 {
    let a = s ^ (s << 13);
    let b = a ^ (a >> 17);
    b ^ (b << 43)
}

/// `n` xorshift rounds over a 64-bit state.
pub open spec fn xorshift_iter(s: u64, n: nat) -> u64
    decreases n,
{
    if n == 0 {
        s
    } else {
        xorshift_iter(xorshift_step(s), (n - 1) as nat)
    }
}

/// A random number generator based off of xorshift64.
pub struct Rng {
    seed: u64,
}

impl Rng {
    /// The generator's current 64-bit state.
    pub closed spec fn state(&self) -> u64 {
        self.seed
    }

    /// Create a new `Rng` seeded from the worker's CPU identifier and a
    /// timestamp, warmed up with a fixed number of rounds.
    pub fn new(cpu_id: u64, timestamp: u64) -> (r: Rng)
        ensures
            r.state() == xorshift_iter((cpu_id << 48) | timestamp, 1000),
    {
        let mut rng = Rng { seed: (cpu_id << 48) | timestamp };
        let mut i: usize = 0;
        while i < 1000
            invariant
                i <= 1000,
                rng.state() == xorshift_iter((cpu_id << 48) | timestamp, i as nat),
            decreases 1000 - i,
        {
            rng.rand();
            i = i + 1;
            proof {
                lemma_xorshift_iter_unfold((cpu_id << 48) | timestamp, i as nat);
            }
        }
        rng
    }

    /// Get the next random number from the random number generator.
    ///
    /// Returns the state prior to stepping, truncated to `usize`.
    pub fn rand(&mut self) -> (r: usize)
        ensures
            r == old(self).state() as usize,
            final(self).state() == xorshift_step(old(self).state()),
    {
        let orig_seed = self.seed;

        let mut seed = orig_seed;
        seed = seed ^ (seed << 13);
        seed = seed ^ (seed >> 17);
        seed = seed ^ (seed << 43);
        self.seed = seed;

        #[verifier::truncate]
        let r = orig_seed as usize;
        r
    }
}

/// Peeling one round off the back of an iterated xorshift.
proof fn lemma_xorshift_iter_unfold(s: u64, n: nat)
    requires
        n > 0,
    ensures
        xorshift_iter(s, n) == xorshift_step(xorshift_iter(s, (n - 1) as nat)),
    decreases n,
{
    if n == 1 {
        assert(xorshift_iter(s, 1) == xorshift_iter(xorshift_step(s), 0));
        assert(xorshift_iter(xorshift_step(s), 0) == xorshift_step(s));
        assert(xorshift_iter(s, 0) == s);
    } else {
        lemma_xorshift_iter_unfold(xorshift_step(s), (n - 1) as nat);
        assert(xorshift_iter(s, n) == xorshift_iter(xorshift_step(s), (n - 1) as nat));
        assert(xorshift_iter(s, (n - 1) as nat) == xorshift_iter(
            xorshift_step(s),
            (n - 2) as nat,
        ));
    }
}

} // verus!
