//! A decoy-content generator: a first-order token transition model trained on
//! a corpus, a stochastic walk that samples token sequences from it, and the
//! assembly of those sequences into link-laden HTML pages.
//!
//! The randomness behind every decision is an explicit, injectable
//! [`rng::Randomness`] value, so that seeded generation is reproducible and
//! the generation rules can be stated and proved for every outcome.
use vstd::prelude::*;

pub mod assemble;
pub mod markov;
pub mod rng;
pub mod text;
pub mod transform;

pub use rng::rand_link;

verus! {

/// Why a transition model could not be trained.
#[derive(Clone, Copy, PartialEq, Eq, Structural, Debug)]
pub enum TrainingError {
    /// The corpus held fewer than two tokens, so no transition could be
    /// formed.
    TooFewTokens,
}

/// Why a configuration was rejected before any page was generated.
#[derive(Clone, Copy, PartialEq, Eq, Structural, Debug)]
pub enum ConfigError {
    /// The minimum token count exceeded the maximum.
    MinExceedsMax,
    /// A probability had a zero denominator or exceeded one.
    BadProbability,
}

/// A rational probability `num / den`, used for every Bernoulli decision the
/// generator makes.
#[derive(Clone, Copy, PartialEq, Eq, Structural, Debug)]
pub struct Prob {
    pub num: u32,
    pub den: u32,
}

impl Prob {
    /// A probability is well formed when its denominator is positive and it
    /// does not exceed one.
    pub open spec fn wf(self) -> bool {
        self.den > 0 && self.num <= self.den
    }

    /// A decision with this probability never succeeds.
    pub open spec fn is_never(self) -> bool {
        self.num == 0
    }

    /// Build a probability, rejecting one that is not well formed.
    pub fn new(num: u32, den: u32) -> (r: Result<Prob, ConfigError>)
        ensures
            r is Ok <==> (den > 0 && num <= den),
            r matches Ok(p) ==> p == (Prob { num, den }) && p.wf(),
            r is Err ==> r == Result::<Prob, ConfigError>::Err(ConfigError::BadProbability),
    {
        if den > 0 && num <= den {
            Ok(Prob { num, den })
        } else {
            Err(ConfigError::BadProbability)
        }
    }

    /// The probability zero: a decision that never succeeds.
    pub fn never() -> (r: Prob)
        ensures
            r.wf(),
            r.is_never(),
            r == (Prob { num: 0u32, den: 1u32 }),
    {
        Prob { num: 0, den: 1 }
    }
}

} // verus!
