//! The Mersenne Twister, the random engine of a fit.
//!
//! A stateful engine: every draw advances it, so where a draw happens in the sequence is part
//! of what a model is. What the engine draws is a sequence that the seed alone decides.

use vstd::prelude::*;

verus! {

/// Words of the engine's state.
pub const STATE: usize = 624;

/// How far ahead a word is taken from when the state is renewed.
pub const AHEAD: usize = 397;

/// The bits of a word below its highest.
pub const LOWER: u32 = 0x7FFF_FFFF;

/// The highest bit of a word.
pub const UPPER: u32 = 0x8000_0000;

/// What is mixed in for an odd word.
pub const MIX: u32 = 0x9908_B0DF;

/// The word that follows `prev` when a seed is spread over the state, at place `i`.
pub open spec fn seeded(prev: u32, i: int) -> u32 {
    ((1812433253 * (prev ^ (prev >> 30)) + i) % 0x1_0000_0000) as u32
}

/// Two neighbouring words, twisted.
pub open spec fn twisted(a: u32, b: u32) -> u32 {
    let y = (a & UPPER) | (b & LOWER);
    if y % 2 == 1 {
        (y >> 1) ^ MIX
    } else {
        y >> 1
    }
}

/// Word `n` of the sequence that a seed makes.
pub open spec fn word(seed: u32, n: int) -> u32
    decreases n,
{
    if n <= 0 {
        seed
    } else if n < STATE {
        seeded(word(seed, n - 1), n)
    } else {
        word(seed, n - STATE + AHEAD) ^ twisted(word(seed, n - STATE), word(seed, n - STATE + 1))
    }
}

/// A word as it is handed out.
pub open spec fn tempered(x: u32) -> u32 {
    let a = x ^ (x >> 11);
    let b = a ^ ((a << 7) & 0x9D2C_5680);
    let c = b ^ ((b << 15) & 0xEFC6_0000);
    c ^ (c >> 18)
}

/// Draw `k` of an engine with this seed.
pub open spec fn drawn(seed: u32, k: int) -> u32 {
    tempered(word(seed, STATE + k))
}

/// The engine.
#[derive(Clone, Debug)]
pub struct Mt19937 {
    state: Vec<u32>,
    index: usize,
}

impl Mt19937 {
    pub closed spec fn wf(&self) -> bool {
        self.state.len() == STATE && self.index <= STATE
    }

    /// The engine was seeded with `seed` and has drawn `k` words since.
    pub closed spec fn stands_at(&self, seed: u32, k: int) -> bool {
        &&& 0 <= k
        &&& forall|j: int|
            0 <= j < STATE ==> #[trigger] self.state[j] == word(seed, STATE + k - self.index + j)
        &&& STATE + k >= self.index
    }

    pub fn new(seed: u32) -> (rng: Self)
        ensures
            rng.wf(),
            rng.stands_at(seed, 0),
    {
        let mut state: Vec<u32> = Vec::with_capacity(STATE);
        state.push(seed);
        let mut i: usize = 1;
        while i < STATE
            invariant
                1 <= i <= STATE,
                state.len() == i,
                forall|j: int| 0 <= j < i ==> #[trigger] state[j] == word(seed, j),
            decreases STATE - i,
        {
            let prev: u32 = state[i - 1];
            let mixed: u32 = prev ^ (prev >> 30);
            let next: u32 = 1812433253u32.wrapping_mul(mixed).wrapping_add(i as u32);
            proof {
                lemma_wrapped(1812433253int * mixed, i as int);
                assert(next == seeded(prev, i as int));
            }
            state.push(next);
            i += 1;
        }
        Mt19937 { state, index: STATE }
    }

    /// Make the next words of the sequence.
    fn renew(&mut self)
        requires
            old(self).wf(),
            old(self).index == STATE,
        ensures
            final(self).wf(),
            final(self).index == 0,
            forall|seed: u32, k: int| old(self).stands_at(seed, k) ==> #[trigger] final(self).stands_at(seed, k),
    {
        let ghost was = *self;
        let mut i: usize = 0;
        while i < STATE
            invariant
                was.wf(),
                was.index == STATE,
                self.state.len() == STATE,
                self.index == STATE,
                i <= STATE,
                forall|seed: u32, k: int| #[trigger]
                    was.stands_at(seed, k) ==> renewed(self.state@, seed, k, i as int),
            decreases STATE - i,
        {
            let next: usize = if i + 1 < STATE {
                i + 1
            } else {
                0
            };
            let far: usize = if i + AHEAD < STATE {
                i + AHEAD
            } else {
                i + AHEAD - STATE
            };
            let a: u32 = self.state[i];
            let b: u32 = self.state[next];
            let y: u32 = (a & UPPER) | (b & LOWER);
            let half: u32 = if y % 2 == 1 {
                (y >> 1) ^ MIX
            } else {
                y >> 1
            };
            let ghost before = self.state@;
            let v: u32 = self.state[far] ^ half;
            self.state.set(i, v);
            proof {
                assert forall|seed: u32, k: int| #[trigger] was.stands_at(seed, k) implies renewed(
                    self.state@,
                    seed,
                    k,
                    i + 1,
                ) by {
                    assert(renewed(before, seed, k, i as int));
                    assert(before[i as int] == word(seed, k + i));
                    assert(before[next as int] == word(seed, k + i + 1));
                    assert(before[far as int] == word(seed, k + i + AHEAD));
                    assert(v == word(seed, k + STATE + i));
                }
            }
            i += 1;
        }
        self.index = 0;
        proof {
            assert forall|seed: u32, k: int| was.stands_at(seed, k) implies #[trigger] self.stands_at(seed, k) by {
                assert(renewed(self.state@, seed, k, STATE as int));
            }
        }
    }

    /// The next word of the sequence.
    pub fn next_u32(&mut self) -> (v: u32)
        requires
            old(self).wf(),
        ensures
            final(self).wf(),
            forall|seed: u32, k: int| #[trigger]
                old(self).stands_at(seed, k) ==> v == drawn(seed, k) && final(self).stands_at(seed, k + 1),
    {
        let ghost was = *self;
        if self.index >= STATE {
            self.renew();
        }
        let x: u32 = self.state[self.index];
        let ghost mid = *self;
        self.index = self.index + 1;
        let a: u32 = x ^ (x >> 11);
        let b: u32 = a ^ ((a << 7) & 0x9D2C_5680);
        let c: u32 = b ^ ((b << 15) & 0xEFC6_0000);
        proof {
            assert forall|seed: u32, k: int| #[trigger] was.stands_at(seed, k) implies c ^ (c >> 18) == drawn(seed, k)
                && self.stands_at(seed, k + 1) by {
                assert(mid.stands_at(seed, k));
                assert(mid.state[mid.index as int] == word(seed, STATE + k));
            }
        }
        c ^ (c >> 18)
    }
}

/// The first `i` words of a state are renewed: they stand `STATE` words on.
spec fn renewed(state: Seq<u32>, seed: u32, k: int, i: int) -> bool {
    &&& forall|j: int| 0 <= j < i ==> #[trigger] state[j] == word(seed, STATE + k + j)
    &&& forall|j: int| i <= j < STATE ==> #[trigger] state[j] == word(seed, k + j)
    &&& 0 <= k
}

/// Reducing a product before adding to it makes no difference.
proof fn lemma_wrapped(p: int, i: int)
    ensures
        (p % 0x1_0000_0000 + i) % 0x1_0000_0000 == (p + i) % 0x1_0000_0000,
{
}

} // verus!
