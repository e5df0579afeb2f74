//! A spaced-repetition flashcard library: an SM-2 scheduler, an analytics
//! aggregator over a card collection, and a round-trippable deck codec.
//!
//! Fractional quantities (easiness factor, difficulty) are held in thousandths
//! as integers, so every scheduling and analytics rule is exact.

pub mod analytics;
pub mod card;
pub mod codec;
pub mod decode;
pub mod scheduler;

use vstd::prelude::*;

verus! {

/// The lower bound the scheduler enforces on `easiness_factor`, in thousandths.
pub const EF_FLOOR_MILLI: u32 = 1300;

} // verus!
