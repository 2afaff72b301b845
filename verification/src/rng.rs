//! The small deterministic generator that keeps entities of one kind out of
//! step with each other: a xorshift64* stream seeded through a multiply.

use vstd::prelude::*;

verus! {

/// Seed multiplier: adjacent seeds start far apart.
pub const SEED_MULTIPLIER: u64 = 0x9E37_79B9_7F4A_7C15;

/// Output multiplier of xorshift64*.
pub const OUTPUT_MULTIPLIER: u64 = 0x2545_F491_4F6C_DD1D;

/// A xorshift64* generator.
#[derive(Debug, Clone)]
pub struct Rng(u64);

/// `x * y` modulo 2^64 (`u64::wrapping_mul`).
pub open spec fn wrapped_product(x: u64, y: u64) -> u64 {
    ((x as nat * y as nat) % 0x1_0000_0000_0000_0000nat) as u64
}

/// The state a seed starts from: the seed times `SEED_MULTIPLIER`, with the
/// low bit set.
pub open spec fn seeded(seed: u64) -> u64 {
    wrapped_product(seed, SEED_MULTIPLIER) | 1
}

/// One xorshift step: shifts of 12 right, 25 left and 27 right, each folded
/// in with exclusive or.
pub open spec fn xorshift(x: u64) -> u64 {
    let a = x ^ (x >> 12u64);
    let b = a ^ (a << 25u64);
    b ^ (b >> 27u64)
}

impl Rng {
    /// The generator's state.
    pub closed spec fn state(&self) -> u64 {
        self.0
    }

    /// The state is never zero, the one state xorshift cannot leave.
    pub open spec fn wf(&self) -> bool {
        self.state() != 0
    }

    pub fn new(seed: u64) -> (rng: Rng)
        ensures
            rng.state() == seeded(seed),
            rng.wf(),
    {
        let state = seed.wrapping_mul(SEED_MULTIPLIER) | 1;
        let ghost m = wrapped_product(seed, SEED_MULTIPLIER);
        assert(m | 1 != 0) by (bit_vector);
        Rng(state)
    }

    /// Steps the state and returns it scrambled by `OUTPUT_MULTIPLIER`.
    pub fn next_u64(&mut self) -> (out: u64)
        requires
            old(self).wf(),
        ensures
            final(self).state() == xorshift(old(self).state()),
            final(self).wf(),
            out == wrapped_product(final(self).state(), OUTPUT_MULTIPLIER),
    {
        let mut x = self.0;
        proof {
            lemma_xorshift_nonzero(x);
        }
        x = x ^ (x >> 12);
        x = x ^ (x << 25);
        x = x ^ (x >> 27);
        self.0 = x;
        x.wrapping_mul(OUTPUT_MULTIPLIER)
    }
}

/// A non-zero state never steps to zero.
pub proof fn lemma_xorshift_nonzero(x: u64)
    requires
        x != 0,
    ensures
        xorshift(x) != 0,
{
    let a = x ^ (x >> 12u64);
    let b = a ^ (a << 25u64);
    assert(x != 0 ==> a != 0) by (bit_vector)
        requires
            a == x ^ (x >> 12u64),
    ;
    assert(a != 0 ==> b != 0) by (bit_vector)
        requires
            b == a ^ (a << 25u64),
    ;
    assert(b != 0 ==> b ^ (b >> 27u64) != 0) by (bit_vector);
}

/// However many values are drawn, a generator made by `new` never reaches the
/// all-zero state, so its stream never collapses to zeros.
pub proof fn law_stream_never_sticks(seed: u64, steps: nat)
    ensures
        state_after(seeded(seed), steps) != 0,
    decreases steps,
{
    let m = wrapped_product(seed, SEED_MULTIPLIER);
    assert(m | 1 != 0) by (bit_vector);
    if steps > 0 {
        law_stream_never_sticks(seed, (steps - 1) as nat);
        lemma_xorshift_nonzero(state_after(seeded(seed), (steps - 1) as nat));
    }
}

/// The state after `steps` draws from `state`.
pub open spec fn state_after(state: u64, steps: nat) -> u64
    decreases steps,
{
    if steps == 0 {
        state
    } else {
        xorshift(state_after(state, (steps - 1) as nat))
    }
}


/// The `k`-th value drawn (from 0) from a generator made from `seed`.
pub open spec fn nth_draw(seed: u64, k: nat) -> u64 {
    wrapped_product(state_after(seeded(seed), k + 1), OUTPUT_MULTIPLIER)
}

/// The stream is a function of the seed alone: a generator made from
/// `seed` that has drawn `k` values is in state `state_after(seeded(seed), k)`
/// whichever generator it is, and its next draw is `nth_draw(seed, k)`.
pub proof fn law_stream_is_the_seeds(seed: u64, k: nat, a: Rng, b: Rng)
    requires
        a.state() == state_after(seeded(seed), k),
        b.state() == state_after(seeded(seed), k),
    ensures
        a.state() == b.state(),
        wrapped_product(xorshift(a.state()), OUTPUT_MULTIPLIER) == nth_draw(seed, k),
        wrapped_product(xorshift(b.state()), OUTPUT_MULTIPLIER) == nth_draw(seed, k),
{
}

} // verus!
