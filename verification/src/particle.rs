use vstd::prelude::*;

verus! {

/// 2^64, the modulus of `u64` wrapping arithmetic.
pub open spec fn u64_modulus() -> nat {
    0x1_0000_0000_0000_0000nat
}

/// The state a seed is mixed into (SplitMix64 finalizer). A zero result is
/// remapped to a fixed non-zero constant, since xorshift64 sticks at zero.
pub open spec fn mix_seed(seed: u64) -> u64 {
    let a = ((seed as nat + 0x9E37_79B9_7F4A_7C15nat) % u64_modulus()) as u64;
    let b = ((a as nat * 0xBF58_476D_1CE4_E5B9nat) % u64_modulus()) as u64;
    let c = b ^ (b >> 30u64);
    let d = ((c as nat * 0x94D0_49BB_1331_11EBnat) % u64_modulus()) as u64;
    let e = d ^ (d >> 27u64);
    if e == 0 {
        0xDEAD_BEEF_DEAD_BEEFu64
    } else {
        e
    }
}

/// One xorshift64 round.
pub open spec fn xorshift(x: u64) -> u64 {
    let a = x ^ (x << 13u64);
    let b = a ^ (a >> 7u64);
    b ^ (b << 17u64)
}

/// The `n`-th output of a generator whose state is `s` (the first output is
/// `stream(s, 0)`).
pub open spec fn stream(s: u64, n: nat) -> u64
    decreases n,
{
    if n == 0 {
        xorshift(s)
    } else {
        stream(xorshift(s), (n - 1) as nat)
    }
}

/// A xorshift round maps a non-zero state to a non-zero state.
pub proof fn lemma_xorshift_nonzero(x: u64)
    requires
        x != 0,
    ensures
        xorshift(x) != 0,
{
    assert(x != 0 ==> ((x ^ (x << 13u64)) ^ ((x ^ (x << 13u64)) >> 7u64)) ^ (((x ^ (x << 13u64)) ^ ((x ^ (x << 13u64)) >> 7u64)) << 17u64) != 0) by (bit_vector);
}

/// A generator started from a non-zero state never outputs zero.
pub proof fn lemma_stream_nonzero(s: u64, n: nat)
    requires
        s != 0,
    ensures
        stream(s, n) != 0,
    decreases n,
{
    lemma_xorshift_nonzero(s);
    if n > 0 {
        lemma_stream_nonzero(xorshift(s), (n - 1) as nat);
    }
}

/// Deterministic per-emitter random number generator (xorshift64 with
/// SplitMix-style seed mixing). Identical seeds give identical streams.
#[derive(Debug)]
pub struct ParticleRng {
    state: u64,
}

impl ParticleRng {
    #[verifier::type_invariant]
    spec fn inv(self) -> bool {
        self.state != 0
    }

    /// The current state.
    pub closed spec fn spec_state(&self) -> u64 {
        self.state
    }

    /// Construct a generator from any seed.
    pub fn from_seed(seed: u64) -> (r: ParticleRng)
        ensures
            r.spec_state() == mix_seed(seed),
            r.spec_state() != 0,
    {
        let mut state = seed.wrapping_add(0x9E37_79B9_7F4A_7C15u64).wrapping_mul(0xBF58_476D_1CE4_E5B9u64);
        state = state ^ (state >> 30u64);
        state = state.wrapping_mul(0x94D0_49BB_1331_11EBu64);
        state = state ^ (state >> 27u64);
        if state == 0 {
            state = 0xDEAD_BEEF_DEAD_BEEFu64;
        }
        ParticleRng { state }
    }

    /// The next raw `u64`: one xorshift round of the state, which becomes
    /// the new state. Never zero.
    pub fn next_u64(&mut self) -> (r: u64)
        ensures
            r == xorshift(old(self).spec_state()),
            final(self).spec_state() == r,
            r != 0,
    {
        proof {
            use_type_invariant(&*self);
            lemma_xorshift_nonzero(self.state);
        }
        let mut x = self.state;
        x = x ^ (x << 13u64);
        x = x ^ (x >> 7u64);
        x = x ^ (x << 17u64);
        self.state = x;
        x
    }

    /// The top 24 bits of the next raw `u64`: a uniform draw from
    /// `0..2^24`, the numerator of a fraction in `[0, 1)` over `2^24`.
    pub fn next_unit_bits(&mut self) -> (r: u32)
        ensures
            r == xorshift(old(self).spec_state()) >> 40u64,
            final(self).spec_state() == xorshift(old(self).spec_state()),
            r < 0x100_0000,
    {
        let x = self.next_u64();
        let top = x >> 40u64;
        assert(top < 0x100_0000) by (bit_vector)
            requires
                top == x >> 40u64,
        ;
        top as u32
    }
}

impl Clone for ParticleRng {
    /// A generator with the same state, hence the same stream.
    fn clone(&self) -> (r: ParticleRng)
        ensures
            r.spec_state() == self.spec_state(),
    {
        proof {
            use_type_invariant(self);
        }
        ParticleRng { state: self.state }
    }
}

/// Tag component that opts an entity into the billboard render path.
#[derive(Clone, Copy, Debug, Default, PartialEq, Eq, Structural)]
pub struct Billboard;

} // verus!
