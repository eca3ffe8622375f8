use vstd::prelude::*;

verus! {

#[verifier::external_type_specification]
#[verifier::external_body]
pub struct ExStdRng(rand::rngs::StdRng);

/// A seedable random generator, threaded explicitly through every search
/// loop so that runs can be reproduced from a seed.
pub struct RandomSource {
    rng: rand::rngs::StdRng,
}

impl RandomSource {
    /// Relies on rand's `StdRng::seed_from_u64`: builds a generator from a
    /// 64-bit seed.  Nothing is promised of the stream it produces.
    #[verifier::external_body]
    pub fn new_seeded(seed: u64) -> (r: RandomSource) {
        RandomSource { rng: <rand::rngs::StdRng as rand::SeedableRng>::seed_from_u64(seed) }
    }

    /// Relies on rand's `RngExt::random_range` over `0..bound`: the result is
    /// drawn from that range, so in particular it is below `bound`.
    #[verifier::external_body]
    pub fn gen_index(&mut self, bound: usize) -> (r: usize)
        requires
            bound >= 1,
        ensures
            r < bound,
    {
        rand::RngExt::random_range(&mut self.rng, 0..bound)
    }

    /// Relies on rand's `RngExt::random_ratio`: true with probability
    /// `numerator / denominator`; rand documents that the result is always
    /// false for a zero numerator and always true for a full ratio.
    #[verifier::external_body]
    pub fn gen_ratio(&mut self, numerator: u32, denominator: u32) -> (r: bool)
        requires
            denominator >= 1,
            numerator <= denominator,
        ensures
            numerator == 0 ==> r == false,
            numerator == denominator ==> r == true,
    {
        rand::RngExt::random_ratio(&mut self.rng, numerator, denominator)
    }

    /// Relies on rand's `RngExt::random` at type `u32`: a random 32-bit
    /// value.  Nothing is promised of it.
    #[verifier::external_body]
    pub fn gen_u32(&mut self) -> (r: u32) {
        rand::RngExt::random::<u32>(&mut self.rng)
    }

    /// Relies on rand's `RngExt::random_range` over `0..bound` at type
    /// `u64`: the result is drawn from that range, so in particular it is
    /// below `bound`.
    #[verifier::external_body]
    pub fn gen_u64_below(&mut self, bound: u64) -> (r: u64)
        requires
            bound >= 1,
        ensures
            r < bound,
    {
        rand::RngExt::random_range(&mut self.rng, 0..bound)
    }
}

/// The number of uniform draws summed by `normal_sample`; with this many,
/// the sum is the classical Irwin-Hall approximation of a normal variate.
pub const NORMAL_DRAWS: u64 = 12;

/// Granularity of each uniform draw inside `normal_sample`.
pub const NORMAL_GRAIN: u64 = 4096;

impl RandomSource {
    /// An integer draw that approximates a normal distribution with the
    /// given mean and standard deviation: the sum of twelve uniform draws
    /// has mean `6 * NORMAL_GRAIN` and standard deviation close to
    /// `NORMAL_GRAIN`, and is shifted and scaled onto the requested
    /// parameters.  Results below zero are clamped to zero.
    pub fn normal_sample(&mut self, mean: u64, std_dev: u64) -> (r: u64)
        requires
            mean <= 0xffff_ffff,
            std_dev <= 0xffff,
        ensures
            r <= mean + 6 * std_dev,
    {
        let mut sum: u64 = 0;
        let mut k: u64 = 0;
        while k < NORMAL_DRAWS
            invariant
                k <= NORMAL_DRAWS,
                sum <= k * NORMAL_GRAIN,
            decreases NORMAL_DRAWS - k,
        {
            let d = self.gen_index(NORMAL_GRAIN as usize);
            sum = sum + d as u64;
            k = k + 1;
        }
        // `sum` is in `[0, 12 * GRAIN)`; centre it and scale by the
        // requested standard deviation.
        proof {
            assert(sum <= NORMAL_DRAWS * NORMAL_GRAIN);
        }
        let centre: u64 = 6 * NORMAL_GRAIN;
        if sum >= centre {
            let above: u64 = sum - centre;
            proof {
                assert(above * std_dev <= 6 * NORMAL_GRAIN * 0xffff) by (nonlinear_arith)
                    requires
                        above <= 6 * NORMAL_GRAIN,
                        std_dev <= 0xffff,
                ;
                assert((above as int) * (std_dev as int) / (NORMAL_GRAIN as int) <= 6 * (
                std_dev as int)) by (nonlinear_arith)
                    requires
                        above <= 6 * NORMAL_GRAIN,
                        NORMAL_GRAIN >= 1,
                ;
            }
            mean + above * std_dev / NORMAL_GRAIN
        } else {
            let gap: u64 = centre - sum;
            proof {
                assert(gap * std_dev <= 6 * NORMAL_GRAIN * 0xffff) by (nonlinear_arith)
                    requires
                        gap <= 6 * NORMAL_GRAIN,
                        std_dev <= 0xffff,
                ;
            }
            let below: u64 = gap * std_dev / NORMAL_GRAIN;
            if below >= mean {
                0
            } else {
                mean - below
            }
        }
    }
}

} // verus!
