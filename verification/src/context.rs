//! Run-wide settings that are not part of the model: thread count, the random seed, and the
//! random engine those seeds drive.
//!
//! The engine is stateful: every column and row sample advances it, so where a draw happens
//! in the sequence is part of the model's definition. It is threaded through a fit rather
//! than stored globally.

use vstd::prelude::*;

use crate::parameters::{GeneralParameters, LearningTaskParameters, Verbosity};
use crate::rng::Mt19937;

verus! {

/// The multiplier that reseeding per iteration uses.
pub const RAND_SEED_MAGIC: i64 = 127;

/// Per-run context: threads, seed, verbosity, and the session random engine.
#[derive(Clone, Debug)]
pub struct Context {
    /// Requested thread count; `0` means every core available.
    pub nthread: u32,
    /// The `seed` parameter.
    pub seed: i64,
    /// Reseed the engine at the start of every boosting round.
    pub seed_per_iteration: bool,
    /// How much the fit reports.
    pub verbosity: Verbosity,
    /// The session random engine.
    pub rng: Mt19937,
}

/// The low 32 bits of a 64-bit number.
pub open spec fn low_word(x: int) -> u32 {
    (x % 0x1_0000_0000) as u32
}

fn narrow(x: i64) -> (low: u32)
    ensures
        low == low_word(x as int),
{
    let wide: i128 = x as i128;
    let m: i128 = if wide < 0 {
        wide + 0x1_0000_0000_0000_0000
    } else {
        wide
    };
    proof {
        assert(m % 0x1_0000_0000 == x as int % 0x1_0000_0000);
    }
    (m as u64 % 0x1_0000_0000) as u32
}

/// The seed of a boosting round: the low word of the seed times the magic number plus the
/// rounds there were before.
pub open spec fn iteration_seed(seed: i64, rounds: int) -> u32 {
    low_word(seed * RAND_SEED_MAGIC + rounds)
}

/// The seed of the round after `rounds` others.
pub fn round_seed(seed: i64, rounds: usize) -> (s: u32)
    ensures
        s == iteration_seed(seed, rounds as int),
{
    let product: i128 = seed as i128 * 127;
    // A multiple of the word's range that makes up for every negative product.
    let lifted: i128 = product + 0x40_0000_0000_0000_0000 + rounds as i128;
    proof {
        let x = seed * RAND_SEED_MAGIC + rounds;
        assert(lifted == x + 0x40_0000_0000 * 0x1_0000_0000);
        vstd::arithmetic::div_mod::lemma_mod_multiples_vanish(0x40_0000_0000, x, 0x1_0000_0000);
    }
    (lifted as u128 % 0x1_0000_0000) as u32
}

/// Verbosity as a number that grows with how much is reported.
pub open spec fn rank_of(v: Verbosity) -> u8 {
    match v {
        Verbosity::Silent => 0,
        Verbosity::Warning => 1,
        Verbosity::Info => 2,
        Verbosity::Debug => 3,
    }
}

fn verbosity_rank(v: Verbosity) -> (rank: u8)
    ensures
        rank == rank_of(v),
{
    match v {
        Verbosity::Silent => 0,
        Verbosity::Warning => 1,
        Verbosity::Info => 2,
        Verbosity::Debug => 3,
    }
}

impl Default for Context {
    fn default() -> (ctx: Self)
        ensures
            ctx.nthread == 0,
            ctx.seed == 0,
            !ctx.seed_per_iteration,
            ctx.verbosity == Verbosity::Warning,
            ctx.rng.wf(),
            ctx.rng.stands_at(0, 0),
    {
        Context::new(&GeneralParameters::default(), &LearningTaskParameters::default())
    }
}

impl Context {
    /// Build from the two parameter groups that own these settings. The engine is seeded
    /// with the low word of the seed.
    pub fn new(general: &GeneralParameters, learning: &LearningTaskParameters) -> (ctx: Self)
        ensures
            ctx.nthread == general.nthread,
            ctx.seed == learning.seed,
            ctx.seed_per_iteration == learning.seed_per_iteration,
            ctx.verbosity == general.verbosity,
            ctx.rng.wf(),
            ctx.rng.stands_at(low_word(learning.seed as int), 0),
    {
        Context {
            nthread: general.nthread,
            seed: learning.seed,
            seed_per_iteration: learning.seed_per_iteration,
            verbosity: general.verbosity,
            rng: Mt19937::new(narrow(learning.seed)),
        }
    }

    /// The session random engine.
    pub fn rng(&mut self) -> (rng: &mut Mt19937)
        ensures
            *rng == old(self).rng,
            *final(self) == (Context { rng: *final(rng), ..*old(self) }),
    {
        &mut self.rng
    }

    /// Reseed for a new boosting round, where that is asked for; nothing otherwise.
    pub fn seed_for_iteration(&mut self, boosted_rounds: usize)
        ensures
            !old(self).seed_per_iteration ==> *final(self) == *old(self),
            old(self).seed_per_iteration ==> {
                &&& *final(self) == (Context { rng: final(self).rng, ..*old(self) })
                &&& final(self).rng.wf()
                &&& final(self).rng.stands_at(iteration_seed(old(self).seed, boosted_rounds as int), 0)
            },
    {
        if self.seed_per_iteration {
            self.rng = Mt19937::new(round_seed(self.seed, boosted_rounds));
        }
    }

    /// Threads this run will use, resolving `0` to the parallelism that is available.
    pub fn threads(&self, available: usize) -> (n: usize)
        ensures
            n == (if self.nthread == 0 {
                available
            } else {
                self.nthread as usize
            }),
    {
        if self.nthread == 0 {
            available
        } else {
            self.nthread as usize
        }
    }

    /// Whether messages at `level` should be printed.
    pub fn logs(&self, level: Verbosity) -> (yes: bool)
        ensures
            yes == (rank_of(self.verbosity) >= rank_of(level)),
    {
        verbosity_rank(self.verbosity) >= verbosity_rank(level)
    }
}

/// What a fit prints at one level it prints at every louder one, and a quieter fit prints no
/// more.
pub proof fn lemma_verbosity_gates(quiet: Verbosity, loud: Verbosity, level: Verbosity, weightier: Verbosity)
    requires
        rank_of(quiet) <= rank_of(loud),
        rank_of(weightier) <= rank_of(level),
        rank_of(quiet) >= rank_of(level),
    ensures
        rank_of(loud) >= rank_of(level),
        rank_of(quiet) >= rank_of(weightier),
{
}

/// A round's seed is that of the round before and one, round a 32-bit word; the first round's is the
/// seed a hundred and twenty-seven times over. So no two rounds of one fit share a seed until the
/// word has gone round.
pub proof fn lemma_round_seeds(seed: i64, a: int, b: int)
    requires
        0 <= a < b,
        b - a < 0x1_0000_0000,
    ensures
        iteration_seed(seed, a) != iteration_seed(seed, b),
        iteration_seed(seed, a + 1) == (if iteration_seed(seed, a) == u32::MAX {
            0
        } else {
            iteration_seed(seed, a) + 1
        }),
        0 <= seed <= 0x200_0000 ==> iteration_seed(seed, 0) == seed * 127,
{
    let x = seed * RAND_SEED_MAGIC;
    assert((x + a) % 0x1_0000_0000 != (x + b) % 0x1_0000_0000);
}

/// A seed that fits a word is that word, and seeds a word's range apart are the same.
pub proof fn lemma_low_word(x: int)
    ensures
        0 <= x < 0x1_0000_0000 ==> low_word(x) == x,
        low_word(x + 0x1_0000_0000) == low_word(x),
{
}

/// The levels stand in the order silent, warning, info, debug.
pub proof fn lemma_levels(v: Verbosity)
    ensures
        rank_of(Verbosity::Silent) <= rank_of(v) <= rank_of(Verbosity::Debug),
        rank_of(Verbosity::Silent) < rank_of(Verbosity::Warning) < rank_of(Verbosity::Info) < rank_of(Verbosity::Debug),
{
}

} // verus!
