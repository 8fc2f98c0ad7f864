//! Our own pinned PRNG: xoshiro256++ (Blackman & Vigna), seeded via
//! splitmix64. The output stream is part of the library's contract: every
//! function here states the exact word it produces.

use vstd::prelude::*;

verus! {

/// Bumped whenever the algorithm or its seeding changes in a way that moves
/// the output stream.
pub const RNG_VERSION: u32 = 1;

/// splitmix64's additive constant (the golden ratio in 64-bit fixed point).
pub const SPLITMIX_GAMMA: u64 = 0x9E3779B97F4A7C15;

/// The state splitmix64 moves to from `state`.
pub open spec fn splitmix_advance(state: u64) -> u64 {
    state.wrapping_add(SPLITMIX_GAMMA)
}

/// splitmix64's output mix of an (already advanced) state.
pub open spec fn splitmix_mix(z0: u64) -> u64 {
    let z1 = (z0 ^ (z0 >> 30u64)).wrapping_mul(0xBF58476D1CE4E5B9u64);
    let z2 = (z1 ^ (z1 >> 27u64)).wrapping_mul(0x94D049BB133111EBu64);
    z2 ^ (z2 >> 31u64)
}

/// The word splitmix64 outputs from `state` (before advancing).
pub open spec fn splitmix_output(state: u64) -> u64 {
    splitmix_mix(splitmix_advance(state))
}

/// One splitmix64 step: advances `state` and returns the mixed word.
pub fn splitmix64(state: &mut u64) -> (out: u64)
    ensures
        *final(state) == splitmix_advance(*old(state)),
        out == splitmix_output(*old(state)),
{
    *state = state.wrapping_add(SPLITMIX_GAMMA);
    let mut z = *state;
    z = (z ^ (z >> 30u64)).wrapping_mul(0xBF58476D1CE4E5B9u64);
    z = (z ^ (z >> 27u64)).wrapping_mul(0x94D049BB133111EBu64);
    z ^ (z >> 31u64)
}

/// The seed derived from a pair of stable ids.
pub open spec fn spec_seed_from_ids(a: u64, b: u64) -> u64 {
    splitmix_output(a ^ splitmix_output(b))
}

/// Derives a seed from a pair of stable ids (e.g. citizen id, tick), so the
/// same pair always yields the same seed.
pub fn seed_from_ids(a: u64, b: u64) -> (seed: u64)
    ensures
        seed == spec_seed_from_ids(a, b),
{
    let mut b_state = b;
    let mut state = a ^ splitmix64(&mut b_state);
    splitmix64(&mut state)
}

/// Left rotation of a 64-bit word by `n` bits, `0 < n < 64`.
pub open spec fn rotl(x: u64, n: u64) -> u64 {
    (x << n) | (x >> (64u64 - n))
}

fn rotate_left(x: u64, n: u64) -> (r: u64)
    requires
        0 < n < 64,
    ensures
        r == rotl(x, n),
{
    (x << n) | (x >> (64u64 - n))
}

/// The four state words splitmix64 expands `seed` into.
pub open spec fn seeded_state(seed: u64) -> Seq<u64> {
    let s1 = splitmix_advance(seed);
    let s2 = splitmix_advance(s1);
    let s3 = splitmix_advance(s2);
    seq![splitmix_output(seed), splitmix_output(s1), splitmix_output(s2), splitmix_output(s3)]
}

/// The word xoshiro256++ outputs from state `s`.
pub open spec fn xoshiro_output(s: Seq<u64>) -> u64 {
    rotl(s[0].wrapping_add(s[3]), 23).wrapping_add(s[0])
}

/// The state xoshiro256++ moves to from `s`.
pub open spec fn xoshiro_advance(s: Seq<u64>) -> Seq<u64> {
    let t = s[1] << 17u64;
    let s2 = s[2] ^ s[0];
    let s3 = s[3] ^ s[1];
    let s1 = s[1] ^ s2;
    let s0 = s[0] ^ s3;
    seq![s0, s1, s2 ^ t, rotl(s3, 45)]
}

/// xoshiro256++, a deterministic, non-cryptographic PRNG over `u64`.
pub struct Rng {
    state: [u64; 4],
}

impl Rng {
    /// The generator's four state words.
    pub closed spec fn words(&self) -> Seq<u64> {
        self.state@
    }

    /// Builds a generator from a single `u64` seed, expanded into the
    /// 256-bit state via splitmix64.
    pub fn new(seed: u64) -> (rng: Self)
        ensures
            rng.words() == seeded_state(seed),
    {
        let mut sm_state = seed;
        let a = splitmix64(&mut sm_state);
        let b = splitmix64(&mut sm_state);
        let c = splitmix64(&mut sm_state);
        let d = splitmix64(&mut sm_state);
        let rng = Rng { state: [a, b, c, d] };
        assert(rng.words() =~= seeded_state(seed));
        rng
    }

    /// Builds a generator directly from four raw state words (the reference
    /// implementation's own known-answer fixtures start from such a state).
    pub fn from_state(s0: u64, s1: u64, s2: u64, s3: u64) -> (rng: Self)
        ensures
            rng.words() == seq![s0, s1, s2, s3],
    {
        let rng = Rng { state: [s0, s1, s2, s3] };
        assert(rng.words() =~= seq![s0, s1, s2, s3]);
        rng
    }

    /// The next `u64` in the stream.
    pub fn next_u64(&mut self) -> (out: u64)
        ensures
            out == xoshiro_output(old(self).words()),
            final(self).words() == xoshiro_advance(old(self).words()),
    {
        let s0 = self.state[0];
        let s1 = self.state[1];
        let s2 = self.state[2];
        let s3 = self.state[3];
        let result = rotate_left(s0.wrapping_add(s3), 23).wrapping_add(s0);
        let t = s1 << 17u64;
        let n2 = s2 ^ s0;
        let n3 = s3 ^ s1;
        let n1 = s1 ^ n2;
        let n0 = s0 ^ n3;
        self.state = [n0, n1, n2 ^ t, rotate_left(n3, 45)];
        assert(self.words() =~= xoshiro_advance(old(self).words()));
        result
    }
}


/// Multiplying by `c` and then by `ci` gives back `x` when `c * ci` is 1
/// modulo 2^64.
proof fn lemma_mul_undone(x: u64, c: u64, ci: u64, k: int)
    requires
        c as int * ci as int == 1 + 0x1_0000_0000_0000_0000int * k,
        k >= 0,
    ensures
        x.wrapping_mul(c).wrapping_mul(ci) == x,
{
    let m = 0x1_0000_0000_0000_0000int;
    let w = x.wrapping_mul(c);
    assert(w as int == (x as int * c as int) % m);
    vstd::arithmetic::div_mod::lemma_mul_mod_noop_left(x as int * c as int, ci as int, m);
    assert(x as int * c as int * ci as int == x as int + m * (x as int * k)) by (nonlinear_arith)
        requires
            c as int * ci as int == 1 + m * k,
    ;
    assert((w as int * ci as int) % m == (x as int * c as int * ci as int) % m);
    vstd::arithmetic::div_mod::lemma_mod_multiples_vanish(x as int * k, x as int, m);
    vstd::arithmetic::div_mod::lemma_small_mod(x as nat, m as nat);
}

/// The inverse of [`splitmix_mix`].
pub open spec fn splitmix_unmix(z2: u64) -> u64 {
    let z1s = z2 ^ (z2 >> 31u64) ^ (z2 >> 62u64);
    let z1 = z1s.wrapping_mul(0x319642b2d24d8ec3u64);
    let z0s = z1 ^ (z1 >> 27u64) ^ (z1 >> 54u64);
    let z0 = z0s.wrapping_mul(0x96de1b173f119089u64);
    z0 ^ (z0 >> 30u64) ^ (z0 >> 60u64)
}

/// Law: [`splitmix_mix`] loses nothing -- [`splitmix_unmix`] undoes it.
pub proof fn lemma_splitmix_unmix(z0: u64)
    ensures
        splitmix_unmix(splitmix_mix(z0)) == z0,
{
    let a = z0 ^ (z0 >> 30u64);
    let z1 = a.wrapping_mul(0xBF58476D1CE4E5B9u64);
    let b = z1 ^ (z1 >> 27u64);
    let z2 = b.wrapping_mul(0x94D049BB133111EBu64);
    let z3 = z2 ^ (z2 >> 31u64);
    assert(z3 ^ (z3 >> 31u64) ^ (z3 >> 62u64) == z2) by (bit_vector)
        requires
            z3 == z2 ^ (z2 >> 31u64),
    ;
    lemma_mul_undone(b, 0x94D049BB133111EBu64, 0x319642b2d24d8ec3u64, 2077064247507883091);
    assert(z1 ^ (z1 >> 27u64) ^ (z1 >> 54u64) == a.wrapping_mul(0xBF58476D1CE4E5B9u64) ^ (a.wrapping_mul(
        0xBF58476D1CE4E5B9u64,
    ) >> 27u64) ^ (a.wrapping_mul(0xBF58476D1CE4E5B9u64) >> 54u64));
    let y = z1 ^ (z1 >> 27u64);
    assert(y ^ (y >> 27u64) ^ (y >> 54u64) == z1) by (bit_vector)
        requires
            y == z1 ^ (z1 >> 27u64),
    ;
    lemma_mul_undone(a, 0xBF58476D1CE4E5B9u64, 0x96de1b173f119089u64, 8125545580553827436);
    assert(a ^ (a >> 30u64) ^ (a >> 60u64) == z0) by (bit_vector)
        requires
            a == z0 ^ (z0 >> 30u64),
    ;
}

/// Law: different states give different splitmix64 output words.
pub proof fn lemma_splitmix_output_injective(s1: u64, s2: u64)
    requires
        s1 != s2,
    ensures
        splitmix_output(s1) != splitmix_output(s2),
{
    lemma_splitmix_unmix(splitmix_advance(s1));
    lemma_splitmix_unmix(splitmix_advance(s2));
}

/// Law: for a fixed first id, different second ids derive different seeds
/// (and so different streams): the second id is never ignored. Likewise
/// for a fixed second id, different first ids derive different seeds.
pub proof fn lemma_seed_from_ids_injective(a: u64, b1: u64, b2: u64)
    requires
        b1 != b2,
    ensures
        spec_seed_from_ids(a, b1) != spec_seed_from_ids(a, b2),
        spec_seed_from_ids(b1, a) != spec_seed_from_ids(b2, a),
{
    lemma_splitmix_output_injective(b1, b2);
    let p = splitmix_output(b1);
    let q = splitmix_output(b2);
    assert(a ^ p != a ^ q) by (bit_vector)
        requires
            p != q,
    ;
    lemma_splitmix_output_injective(a ^ p, a ^ q);
    let r = splitmix_output(a);
    assert(b1 ^ r != b2 ^ r) by (bit_vector)
        requires
            b1 != b2,
    ;
    lemma_splitmix_output_injective(b1 ^ r, b2 ^ r);
}

} // verus!
