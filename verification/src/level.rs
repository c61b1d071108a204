use vstd::prelude::*;

use crate::error::Error;

verus! {

/// rand's standard generator, held opaquely; the library reads it only
/// through `next_raw`.
#[verifier::external_type_specification]
#[verifier::external_body]
pub struct ExStdRng(rand::rngs::StdRng);

/// Relies on rand's `SeedableRng::seed_from_u64` for `StdRng`: it builds a
/// generator deterministically from the seed.
#[verifier::external_body]
fn seed_rng(seed: u64) -> rand::rngs::StdRng {
    <rand::rngs::StdRng as rand::SeedableRng>::seed_from_u64(seed)
}

/// Relies on rand's `RngCore::next_u64` for `StdRng`: one uniform draw,
/// advancing the stream by exactly one step; the block cipher behind it is
/// plain arithmetic and does not unwind. Nothing is promised of the value
/// drawn; every caller must be correct for every outcome.
#[verifier::external_body]
fn next_raw(rng: &mut rand::rngs::StdRng) -> u64
    no_unwind
{
    rand::RngCore::next_u64(rng)
}

/// Greatest level the assignment can produce.
pub const MAX_LEVEL: usize = 64;

/// The level reached from threshold `t`, scaled by `num/den` once per level,
/// while the draw `u` stays below it; `depth` levels were already granted.
pub open spec fn level_rec(u: int, t: int, num: int, den: int, depth: int) -> int
    decreases MAX_LEVEL as int - depth,
{
    if depth >= MAX_LEVEL as int || den <= 0 {
        depth
    } else {
        let t2 = (t * num) / den;
        if u < t2 {
            level_rec(u, t2, num, den, depth + 1)
        } else {
            depth
        }
    }
}

/// The level assigned for one raw draw `u` under promotion ratio `num/den`:
/// the threshold starts at 2^64, is scaled by `num/den` once per level, and
/// the level is how many times the draw stays below it, capped at
/// `MAX_LEVEL`. A uniform draw therefore reaches level `l` with probability
/// about `(num/den)^l`.
pub open spec fn spec_level(u: u64, num: u64, den: u64) -> int {
    level_rec(u as int, 0x1_0000_0000_0000_0000, num as int, den as int, 0)
}

/// The level for one raw draw.
pub fn level_from_draw(u: u64, num: u64, den: u64) -> (r: usize)
    requires
        1 <= num < den,
        den <= 0x1_0000_0000u64,
    ensures
        r as int == spec_level(u, num, den),
        r <= MAX_LEVEL,
{
    let mut t: u128 = 0x1_0000_0000_0000_0000u128;
    let mut depth: usize = 0;
    while depth < MAX_LEVEL
        invariant_except_break
            1 <= num < den,
            den <= 0x1_0000_0000u64,
            depth <= MAX_LEVEL,
            t <= 0x1_0000_0000_0000_0000u128,
            spec_level(u, num, den) == level_rec(
                u as int,
                t as int,
                num as int,
                den as int,
                depth as int,
            ),
        ensures
            depth <= MAX_LEVEL,
            spec_level(u, num, den) == depth as int,
        decreases MAX_LEVEL - depth,
    {
        assert((t as int) * (num as int) < 0x1_0000_0000_0000_0000_0000_0000_0000_0000)
            by (nonlinear_arith)
            requires
                0 <= t as int <= 0x1_0000_0000_0000_0000,
                0 <= num as int,
                (num as int) < 0x1_0000_0000,
        ;
        let t2: u128 = t * (num as u128) / (den as u128);
        assert(t2 as int <= t as int) by (nonlinear_arith)
            requires
                t2 as int == (t as int) * (num as int) / (den as int),
                0 <= t as int,
                1 <= num as int,
                (num as int) < den as int,
        ;
        if (u as u128) < t2 {
            t = t2;
            depth += 1;
        } else {
            break;
        }
    }
    depth
}

/// The seeded, swappable source of level assignments: one draw of rand's
/// standard stream per call, mapped to a level whose distribution decays
/// geometrically with ratio `num/den`. The ratio stands for
/// `exp(-1 / normalization_factor)` of the classical assignment, so a larger
/// normalization factor corresponds to a ratio closer to one and, on
/// average, to more and higher layers.
pub struct LevelGen {
    rng: rand::rngs::StdRng,
    num: u64,
    den: u64,
}

impl LevelGen {
    /// The stream value held.
    pub closed spec fn rng_spec(&self) -> rand::rngs::StdRng {
        self.rng
    }

    /// The promotion ratio's numerator.
    pub closed spec fn num_spec(&self) -> u64 {
        self.num
    }

    /// The promotion ratio's denominator.
    pub closed spec fn den_spec(&self) -> u64 {
        self.den
    }

    /// A promotion ratio must be a proper positive fraction with a bounded
    /// denominator.
    pub open spec fn ratio_ok(num: u64, den: u64) -> bool {
        1 <= num < den && den <= 0x1_0000_0000u64
    }

    #[verifier::type_invariant]
    closed spec fn inv(&self) -> bool {
        Self::ratio_ok(self.num, self.den)
    }

    /// A generator seeded for determinism: the same seed and ratio give the
    /// same level sequence. A degenerate ratio is rejected.
    pub fn new(seed: u64, num: u64, den: u64) -> (r: Result<Self, Error>)
        ensures
            r is Ok <==> Self::ratio_ok(num, den),
            r matches Ok(g) ==> g.num_spec() == num && g.den_spec() == den,
            r is Err ==> r == Err::<Self, Error>(Error::InvalidParameter),
    {
        if 1 <= num && num < den && den <= 0x1_0000_0000u64 {
            Ok(LevelGen { rng: seed_rng(seed), num, den })
        } else {
            Err(Error::InvalidParameter)
        }
    }

    /// A generator over a caller-supplied stream.
    pub fn from_rng(rng: rand::rngs::StdRng, num: u64, den: u64) -> (r: Result<Self, Error>)
        ensures
            r is Ok <==> Self::ratio_ok(num, den),
            r matches Ok(g) ==> g.rng_spec() == rng && g.num_spec() == num && g.den_spec() == den,
            r is Err ==> r == Err::<Self, Error>(Error::InvalidParameter),
    {
        if 1 <= num && num < den && den <= 0x1_0000_0000u64 {
            Ok(LevelGen { rng, num, den })
        } else {
            Err(Error::InvalidParameter)
        }
    }

    /// Swaps in a new stream, keeping the ratio.
    pub fn set_rng(&mut self, rng: rand::rngs::StdRng)
        ensures
            final(self).rng_spec() == rng,
            final(self).num_spec() == old(self).num_spec(),
            final(self).den_spec() == old(self).den_spec(),
    {
        proof {
            use_type_invariant(&*self);
        }
        self.rng = rng;
    }

    /// Draws the level for one insertion: exactly one stream step per call;
    /// the ratio is untouched.
    pub fn next_level(&mut self) -> (r: usize)
        ensures
            r <= MAX_LEVEL,
            final(self).num_spec() == old(self).num_spec(),
            final(self).den_spec() == old(self).den_spec(),
    {
        proof {
            use_type_invariant(&*self);
        }
        let u = next_raw(&mut self.rng);
        level_from_draw(u, self.num, self.den)
    }
}

} // verus!
