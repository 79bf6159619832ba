//! Tiny deterministic PRNG shared by engines and tests (no `rand` dep).
use vstd::prelude::*;

verus! {

/// State used in place of a zero seed (zero is a fixed point of xorshift).
pub const ZERO_SEED_REPLACEMENT: u64 = 0x9E37_79B9_7F4A_7C15;

/// One xorshift64 step (shifts 13, 7, 17).
pub open spec fn xorshift_step(x: u64) -> u64 {
    let a = x ^ (x << 13u64);
    let b = a ^ (a >> 7u64);
    b ^ (b << 17u64)
}

/// Values below this bound are accepted by rejection sampling for `len`.
pub open spec fn accept_zone(len: u64) -> u64 {
    (u64::MAX - (u64::MAX % len)) as u64
}

/// Rejection sampling from state `x`: step until a draw falls in the accepted
/// zone, giving up after `tries` further rejections. Returns the final state
/// and the drawn index.
pub open spec fn sample_index(x: u64, len: u64, tries: nat) -> (u64, u64)
    decreases tries,
{
    let y = xorshift_step(x);
    if y < accept_zone(len) || tries == 0 {
        (y, y % len)
    } else {
        sample_index(y, len, (tries - 1) as nat)
    }
}

/// Xorshift64 — fast, seedable, good enough for move selection and fuzzing.
#[derive(Clone, Debug)]
pub struct XorShift64(u64);

impl XorShift64 {
    /// The generator state.
    pub closed spec fn state(self) -> u64 {
        self.0
    }

    /// State of a generator seeded with `seed`.
    pub open spec fn new_state(seed: u64) -> u64 {
        if seed == 0 {
            ZERO_SEED_REPLACEMENT
        } else {
            seed
        }
    }

    pub fn new(seed: u64) -> (r: Self)
        ensures
            r.state() == Self::new_state(seed),
            r.state() != 0,
    {
        // Zero is a fixed point of xorshift; avoid it.
        XorShift64(if seed == 0 { ZERO_SEED_REPLACEMENT } else { seed })
    }

    /// Advance the generator and return its new state; from a nonzero state,
    /// as every generator made by `new` has, the draw is nonzero.
    pub fn next_u64(&mut self) -> (r: u64)
        ensures
            r == xorshift_step(old(self).state()),
            final(self).state() == r,
            old(self).state() != 0 ==> r != 0,
    {
        proof {
            if self.0 != 0 {
                law_step_nonzero(self.0);
            }
        }
        let mut x = self.0;
        x = x ^ (x << 13u64);
        x = x ^ (x >> 7u64);
        x = x ^ (x << 17u64);
        self.0 = x;
        x
    }

    /// Uniform index in `0..len` via rejection sampling (no modulo bias).
    ///
    /// The draw is retried while it falls above the largest multiple of `len`.
    /// The retry count is capped at `u64::MAX`; xorshift64 visits every nonzero
    /// state once per period and at least half of all values are accepted, so
    /// the cap is never reached from a nonzero state.
    pub fn gen_index(&mut self, len: usize) -> (r: usize)
        requires
            len > 0,
        ensures
            r < len,
            (final(self).state(), r as u64) == sample_index(old(self).state(), len as u64, u64::MAX as nat),
    {
        let n = len as u64;
        let zone = u64::MAX - (u64::MAX % n);
        let mut tries: u64 = u64::MAX;
        loop
            invariant
                n > 0,
                n == len,
                zone == accept_zone(n),
                sample_index(old(self).state(), n, u64::MAX as nat) == sample_index(
                    self.state(),
                    n,
                    tries as nat,
                ),
            decreases tries,
        {
            let r = self.next_u64();
            if r < zone || tries == 0 {
                return (r % n) as usize;
            }
            tries = tries - 1;
        }
    }
}

/// The state of a generator seeded with `seed` after `k` draws; draw number
/// `k` (counting from one) returns the state after `k` draws.
pub open spec fn state_after(seed: u64, k: nat) -> u64
    decreases k,
{
    if k == 0 {
        XorShift64::new_state(seed)
    } else {
        xorshift_step(state_after(seed, (k - 1) as nat))
    }
}

/// An xorshift step of a nonzero state is nonzero.
pub proof fn law_step_nonzero(x: u64)
    requires
        x != 0,
    ensures
        xorshift_step(x) != 0,
{
    let a = x ^ (x << 13u64);
    let b = a ^ (a >> 7u64);
    assert(x != 0 ==> x ^ (x << 13u64) != 0) by (bit_vector);
    assert(a != 0 ==> a ^ (a >> 7u64) != 0) by (bit_vector);
    assert(b != 0 ==> b ^ (b << 17u64) != 0) by (bit_vector);
}

/// A generator made by `new` never draws zero, whatever the seed.
pub proof fn law_draws_nonzero(seed: u64, k: nat)
    ensures
        state_after(seed, k) != 0,
    decreases k,
{
    if k > 0 {
        law_draws_nonzero(seed, (k - 1) as nat);
        law_step_nonzero(state_after(seed, (k - 1) as nat));
    }
}

/// The draws depend on the seed alone, and seed zero draws what the
/// replacement seed draws.
pub proof fn law_seed_determines_draws(s1: u64, s2: u64, k: nat)
    requires
        s1 == s2 || (s1 == 0 && s2 == ZERO_SEED_REPLACEMENT),
    ensures
        state_after(s1, k) == state_after(s2, k),
    decreases k,
{
    if k > 0 {
        law_seed_determines_draws(s1, s2, (k - 1) as nat);
    }
}

} // verus!
