use vstd::prelude::*;

verus! {

pub const GOLDEN_GAMMA: u64 = 0x9E3779B97f4A7C15;

/// One output of the SplitMix64 mixer for state `s`.
pub open spec fn splitmix(s: u64) -> u64 {
    let a = (s ^ (s >> 30)).wrapping_mul(0xBF58476D1CE4E5B9);
    let b = (a ^ (a >> 27)).wrapping_mul(0x94D049BB133111EB);
    b ^ (b >> 31)
}

pub open spec fn rotl(x: u64, k: u64) -> u64 {
    (x << k) | (x >> (64 - k) as u64)
}

/// The number that a xoshiro256** state produces.
pub open spec fn output_of(s: Seq<u64>) -> u64 {
    rotl(s[1].wrapping_mul(5), 7).wrapping_mul(9)
}

/// The xoshiro256** state that follows `s`.
pub open spec fn next_state(s: Seq<u64>) -> Seq<u64> {
    let t = s[1] << 17;
    let s2 = s[2] ^ s[0];
    let s3 = s[3] ^ s[1];
    let s1 = s[1] ^ s2;
    let s0 = s[0] ^ s3;
    seq![s0, s1, s2 ^ t, rotl(s3, 45)]
}

/// The state that a seed gives: four SplitMix64 outputs.
pub open spec fn seeded(seed: u64) -> Seq<u64> {
    let a = seed.wrapping_add(GOLDEN_GAMMA);
    let b = a.wrapping_add(GOLDEN_GAMMA);
    let c = b.wrapping_add(GOLDEN_GAMMA);
    let d = c.wrapping_add(GOLDEN_GAMMA);
    seq![splitmix(a), splitmix(b), splitmix(c), splitmix(d)]
}

/// A xoshiro256** pseudo-random generator.
pub struct Rng {
    pub s: [u64; 4],
}

fn splitmix_exec(s: u64) -> (r: u64)
    ensures
        r == splitmix(s),
{
    let a = (s ^ (s >> 30)).wrapping_mul(0xBF58476D1CE4E5B9);
    let b = (a ^ (a >> 27)).wrapping_mul(0x94D049BB133111EB);
    b ^ (b >> 31)
}

fn rotl_exec(x: u64, k: u64) -> (r: u64)
    requires
        0 < k < 64,
    ensures
        r == rotl(x, k),
{
    (x << k) | (x >> (64 - k))
}

/// Relies on `std::time::SystemTime::now`: some number of nanoseconds
/// since the Unix epoch, of which nothing is promised.
#[verifier::external_body]
fn clock_nanos() -> u64 {
    match std::time::SystemTime::now().duration_since(std::time::UNIX_EPOCH) {
        Ok(d) => d.as_nanos() as u64,
        Err(_) => 0,
    }
}

impl Rng {
    /// A generator whose state is four SplitMix64 outputs from `seed`.
    pub fn new(seed: u64) -> (r: Self)
        ensures
            r.s@ == seeded(seed),
    {
        let a = seed.wrapping_add(GOLDEN_GAMMA);
        let b = a.wrapping_add(GOLDEN_GAMMA);
        let c = b.wrapping_add(GOLDEN_GAMMA);
        let d = c.wrapping_add(GOLDEN_GAMMA);
        let r = Rng { s: [splitmix_exec(a), splitmix_exec(b), splitmix_exec(c), splitmix_exec(d)] };
        assert(r.s@ =~= seeded(seed));
        r
    }

    /// A generator seeded from the clock.
    pub fn unix_seed() -> (r: Self)
        ensures
            exists|seed: u64| r.s@ == seeded(seed),
    {
        Self::new(clock_nanos())
    }

    /// The next number; the state moves on.
    pub fn rand_u64(&mut self) -> (r: u64)
        ensures
            r == output_of(old(self).s@),
            final(self).s@ == next_state(old(self).s@),
    {
        let (r, next) = self.const_rand_u64();
        *self = next;
        r
    }

    /// The next number and the generator that follows, leaving this one
    /// as it is.
    pub fn const_rand_u64(&self) -> (r: (u64, Rng))
        ensures
            r.0 == output_of(self.s@),
            r.1.s@ == next_state(self.s@),
    {
        let result = rotl_exec(self.s[1].wrapping_mul(5), 7).wrapping_mul(9);
        let t = self.s[1] << 17;
        let s2 = self.s[2] ^ self.s[0];
        let s3 = self.s[3] ^ self.s[1];
        let s1 = self.s[1] ^ s2;
        let s0 = self.s[0] ^ s3;
        let next = Rng { s: [s0, s1, s2 ^ t, rotl_exec(s3, 45)] };
        assert(next.s@ =~= next_state(self.s@));
        (result, next)
    }
}

} // verus!
