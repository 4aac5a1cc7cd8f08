//! The policy of the engine: the constants that govern decay, reinforcement,
//! fusion and priming, gathered in one value that is handed to the engine
//! when it is built.

use vstd::prelude::*;
use crate::fixed::SCALE;

verus! {

/// Decay constant of a fact, per day: 0.02.
pub const FACT_DECAY_LAMBDA_PER_DAY: u64 = 20_000_000;

/// Decay constant of an episode, per day: 0.06.
pub const EPISODE_DECAY_LAMBDA_PER_DAY: u64 = 60_000_000;

/// What recalling a fact adds to its strength: 0.10.
pub const FACT_TOUCH_BOOST: u64 = 100_000_000;

/// What recalling an episode adds to its strength: 0.20.
pub const EPISODE_TOUCH_BOOST: u64 = 200_000_000;

/// Memories whose effective strength is below 0.01 are forgotten by a sweep.
pub const DEFAULT_PRUNE_FLOOR: u64 = 10_000_000;

/// The cosine that a semantic match must exceed, in millionths: 0.3.
pub const SIMILARITY_THRESHOLD: u32 = 300_000;

/// The fusion constant: rank `r`, counted from zero, contributes `1 / (60 + r + 1)`.
pub const RRF_K: u64 = 60;

/// Candidates kept for re-scoring, per result asked for.
pub const CANDIDATE_MULTIPLIER: usize = 10;

/// The least number of candidates kept for re-scoring.
pub const MIN_CANDIDATES: usize = 50;

/// The fraction of a fact's score that each linked candidate receives: 0.15.
pub const SPREAD_FACTOR: u64 = 150_000_000;

/// The fraction of an anchor's score that a memory created in the same
/// minute receives: 0.1.
pub const TEMPORAL_WEIGHT: u64 = 100_000_000;

/// The constants of the engine. Fractions are in units of `1 / SCALE`
/// unless said otherwise.
#[derive(Clone, Copy, Debug, PartialEq, Eq, Structural)]
pub struct Policy {
    /// Decay constant of a fact, per day.
    pub fact_decay_lambda_per_day: u64,
    /// Decay constant of an episode, per day.
    pub episode_decay_lambda_per_day: u64,
    /// What recalling a fact adds to its strength.
    pub fact_touch_boost: u64,
    /// What recalling an episode adds to its strength.
    pub episode_touch_boost: u64,
    /// The effective strength below which a sweep forgets a memory.
    pub prune_floor: u64,
    /// The cosine that a semantic match must exceed, in millionths.
    pub similarity_threshold: u32,
    /// The fusion constant of reciprocal rank fusion.
    pub rrf_k: u64,
    /// Candidates kept for re-scoring, per result asked for.
    pub candidate_multiplier: usize,
    /// The least number of candidates kept for re-scoring.
    pub min_candidates: usize,
    /// The fraction of a fact's score that each linked candidate receives.
    pub spread_factor: u64,
    /// The fraction of an anchor's score that a memory created in the same
    /// minute receives.
    pub temporal_weight: u64,
}

impl Policy {
    /// The documented constants.
    pub open spec fn standard() -> Policy {
        Policy {
            fact_decay_lambda_per_day: FACT_DECAY_LAMBDA_PER_DAY,
            episode_decay_lambda_per_day: EPISODE_DECAY_LAMBDA_PER_DAY,
            fact_touch_boost: FACT_TOUCH_BOOST,
            episode_touch_boost: EPISODE_TOUCH_BOOST,
            prune_floor: DEFAULT_PRUNE_FLOOR,
            similarity_threshold: SIMILARITY_THRESHOLD,
            rrf_k: RRF_K,
            candidate_multiplier: CANDIDATE_MULTIPLIER,
            min_candidates: MIN_CANDIDATES,
            spread_factor: SPREAD_FACTOR,
            temporal_weight: TEMPORAL_WEIGHT,
        }
    }

    /// A policy is usable when no fraction exceeds one, the similarity
    /// threshold is a cosine, and the fusion constant is positive.
    pub open spec fn wf(self) -> bool {
        &&& self.fact_decay_lambda_per_day <= SCALE
        &&& self.episode_decay_lambda_per_day <= SCALE
        &&& self.fact_touch_boost <= SCALE
        &&& self.episode_touch_boost <= SCALE
        &&& self.similarity_threshold <= 1_000_000
        &&& self.rrf_k >= 1
        &&& self.spread_factor <= SCALE
        &&& self.temporal_weight <= SCALE
    }

    /// Whether the policy is usable.
    pub fn is_valid(&self) -> (r: bool)
        ensures
            r == self.wf(),
    {
        self.fact_decay_lambda_per_day <= SCALE && self.episode_decay_lambda_per_day <= SCALE
            && self.fact_touch_boost <= SCALE && self.episode_touch_boost <= SCALE
            && self.similarity_threshold <= 1_000_000 && self.rrf_k >= 1 && self.spread_factor
            <= SCALE && self.temporal_weight <= SCALE
    }
}

impl Default for Policy {
    /// The documented constants.
    fn default() -> (policy: Self)
        ensures
            policy == Policy::standard(),
            policy.wf(),
    {
        Policy {
            fact_decay_lambda_per_day: FACT_DECAY_LAMBDA_PER_DAY,
            episode_decay_lambda_per_day: EPISODE_DECAY_LAMBDA_PER_DAY,
            fact_touch_boost: FACT_TOUCH_BOOST,
            episode_touch_boost: EPISODE_TOUCH_BOOST,
            prune_floor: DEFAULT_PRUNE_FLOOR,
            similarity_threshold: SIMILARITY_THRESHOLD,
            rrf_k: RRF_K,
            candidate_multiplier: CANDIDATE_MULTIPLIER,
            min_candidates: MIN_CANDIDATES,
            spread_factor: SPREAD_FACTOR,
            temporal_weight: TEMPORAL_WEIGHT,
        }
    }
}

} // verus!
