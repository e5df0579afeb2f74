//! The analytics aggregator: summary statistics over a card collection.

use vstd::prelude::*;
use vstd::arithmetic::div_mod::{
    lemma_div_is_ordered, lemma_div_pos_is_pos, lemma_fundamental_div_mod_converse_div,
};
use crate::card::Card;

verus! {

/// The error an analytics request can return.
#[derive(Debug)]
pub enum AnalyticsError {
    /// A summary was requested over zero cards, whose mean and rate are
    /// undefined.
    EmptyCollection,
}

impl Clone for AnalyticsError {
    fn clone(&self) -> (r: Self)
        ensures
            r == *self,
    {
        AnalyticsError::EmptyCollection
    }
}

/// A point-in-time summary over a card collection. Ratios are held in
/// thousandths, as the cards' own fractional fields are.
pub struct LearningAnalytics {
    /// How many cards the collection holds.
    pub total_cards: usize,
    /// How many of them are mastered (easiness above 2.5 and more than
    /// five consecutive passes).
    pub mastered_cards: usize,
    /// Mean of the cards' difficulty scores, in thousandths, rounded half up.
    /// The difficulty score stands in for a response time; the name keeps
    /// that reading.
    pub avg_response_time: u32,
    /// Mastered share of the collection, in thousandths, rounded half up.
    pub success_rate: u32,
    /// A fixed placeholder: no review-event log exists to compute a real
    /// streak from. An acknowledged gap, not a measurement.
    pub study_streak: i32,
}

/// The placeholder value reported as the study streak.
pub const STUDY_STREAK_STUB: i32 = 15;

/// A card counts as mastered when its easiness factor is above 2.5 and it
/// has more than five consecutive passing reviews.
pub open spec fn is_mastered(c: Card) -> bool {
    c.easiness_factor > 2500 && c.repetitions > 5
}

/// How many cards of the sequence are mastered.
pub open spec fn mastered_count(s: Seq<Card>) -> int
    decreases s.len(),
{
    if s.len() == 0 {
        0
    } else {
        mastered_count(s.drop_last()) + if is_mastered(s.last()) {
            1int
        } else {
            0int
        }
    }
}

/// The sum of the cards' difficulty scores, in thousandths.
pub open spec fn difficulty_sum(s: Seq<Card>) -> int
    decreases s.len(),
{
    if s.len() == 0 {
        0
    } else {
        difficulty_sum(s.drop_last()) + s.last().difficulty
    }
}

/// `a / b` rounded half up, on integers.
pub open spec fn rounded_div(a: int, b: int) -> int
    recommends
        b > 0,
{
    (a + b / 2) / b
}

/// The mean difficulty of a non-empty sequence, in thousandths.
pub open spec fn spec_avg_response_time(s: Seq<Card>) -> int
    recommends
        s.len() > 0,
{
    rounded_div(difficulty_sum(s), s.len() as int)
}

/// The mastered share of a non-empty sequence, in thousandths.
pub open spec fn spec_success_rate(s: Seq<Card>) -> int
    recommends
        s.len() > 0,
{
    rounded_div(1000 * mastered_count(s), s.len() as int)
}

/// Half-up rounding of `a / b` never exceeds `c` when `a` is at most `c * b`.
proof fn lemma_rounded_div_le(a: int, b: int, c: int)
    requires
        0 < b,
        0 <= c,
        0 <= a <= c * b,
    ensures
        0 <= rounded_div(a, b) <= c,
{
    lemma_div_pos_is_pos(a + b / 2, b);
    lemma_div_is_ordered(a + b / 2, c * b + b / 2, b);
    lemma_fundamental_div_mod_converse_div(c * b + b / 2, b, c, b / 2);
}

/// Summarize a collection: counts, mean difficulty, mastered share, and the
/// streak placeholder. An empty collection is rejected rather than letting
/// its undefined mean or rate escape.
pub fn analyze_learning_pattern(cards: &Vec<Card>) -> (r: Result<
    LearningAnalytics,
    AnalyticsError,
>)
    ensures
        r is Err <==> cards@.len() == 0,
        r is Err ==> r == Err::<LearningAnalytics, AnalyticsError>(
            AnalyticsError::EmptyCollection,
        ),
        r is Ok ==> ({
            let a = r->Ok_0;
            &&& a.total_cards == cards@.len()
            &&& a.mastered_cards == mastered_count(cards@)
            &&& a.avg_response_time == spec_avg_response_time(cards@)
            &&& a.success_rate == spec_success_rate(cards@)
            &&& a.study_streak == STUDY_STREAK_STUB
        }),
{
    let total = cards.len();
    if total == 0 {
        return Err(AnalyticsError::EmptyCollection);
    }
    let mut mastered: usize = 0;
    let mut sum: u128 = 0;
    let mut i: usize = 0;
    while i < total
        invariant
            total == cards@.len(),
            i <= total,
            mastered as int == mastered_count(cards@.subrange(0, i as int)),
            sum as int == difficulty_sum(cards@.subrange(0, i as int)),
            mastered <= i,
            sum as int <= (i as int) * (u32::MAX as int),
        decreases total - i,
    {
        proof {
            assert(cards@.subrange(0, i + 1).drop_last() =~= cards@.subrange(0, i as int));
            assert(cards@.subrange(0, i + 1).last() == cards@[i as int]);
        }
        let c = &cards[i];
        if c.easiness_factor > 2500 && c.repetitions > 5 {
            mastered = mastered + 1;
        }
        sum = sum + c.difficulty as u128;
        i = i + 1;
    }
    proof {
        assert(cards@.subrange(0, total as int) =~= cards@);
    }
    let half: u128 = (total as u128) / 2;
    proof {
        lemma_rounded_div_le(sum as int, total as int, u32::MAX as int);
    }
    let avg: u32 = ((sum + half) / (total as u128)) as u32;
    proof {
        lemma_rounded_div_le(1000 * (mastered as int), total as int, 1000);
    }
    let rate: u32 = (((mastered as u128) * 1000 + half) / (total as u128)) as u32;
    Ok(
        LearningAnalytics {
            total_cards: total,
            mastered_cards: mastered,
            avg_response_time: avg,
            success_rate: rate,
            study_streak: STUDY_STREAK_STUB,
        },
    )
}

/// Every card mastered means a full mastered count.
proof fn lemma_mastered_count_all(s: Seq<Card>)
    requires
        forall|i: int| 0 <= i < s.len() ==> is_mastered(s[i]),
    ensures
        mastered_count(s) == s.len(),
    decreases s.len(),
{
    if s.len() > 0 {
        lemma_mastered_count_all(s.drop_last());
    }
}

/// Over a non-empty collection in which every card is mastered, the reported
/// success rate is exactly one (a thousand thousandths).
pub proof fn lemma_all_mastered_full_rate(cards: Seq<Card>)
    requires
        cards.len() > 0,
        forall|i: int| 0 <= i < cards.len() ==> is_mastered(cards[i]),
    ensures
        spec_success_rate(cards) == 1000,
{
    lemma_mastered_count_all(cards);
    let t = cards.len() as int;
    lemma_fundamental_div_mod_converse_div(1000 * t + t / 2, t, 1000, t / 2);
}

} // verus!
