//! The SM-2 scheduler: given a card and a review grade, compute the card's
//! next scheduling state. Pure up to the clock, which is injected.

use vstd::prelude::*;
use crate::EF_FLOOR_MILLI;
use crate::card::{Card, CardView};

verus! {

/// The error a scheduling request can return.
#[derive(Debug)]
pub enum ScheduleError {
    /// The grade lies outside the 0 to 5 review scale.
    InvalidGrade,
}

impl Clone for ScheduleError {
    fn clone(&self) -> (r: Self)
        ensures
            r == *self,
    {
        ScheduleError::InvalidGrade
    }
}

/// A grade on the review scale: 0 (total failure) to 5 (perfect recall).
pub open spec fn valid_grade(grade: int) -> bool {
    0 <= grade <= 5
}

/// The easiness factor after a review, in thousandths: the prior factor plus
/// `0.1 - (5 - grade) * (0.08 + (5 - grade) * 0.02)`, floored at 1.3.
pub open spec fn ef_after(ef: int, grade: int) -> int
    recommends
        valid_grade(grade),
{
    let q = 5 - grade;
    let candidate = ef + 100 - (80 * q + 20 * q * q);
    if candidate < EF_FLOOR_MILLI as int {
        EF_FLOOR_MILLI as int
    } else {
        candidate
    }
}

/// The interval after a review, in days. A passing grade walks the learning
/// steps (1 day, then 6) and afterwards grows the interval by the prior
/// easiness factor, rounding half away from zero; a failing grade resets to 1.
pub open spec fn interval_after(interval: int, repetitions: int, ef: int, grade: int) -> int
    recommends
        valid_grade(grade),
{
    if grade >= 3 {
        if repetitions == 0 {
            1
        } else if repetitions == 1 {
            6
        } else {
            (interval * ef + 500) / 1000
        }
    } else {
        1
    }
}

/// The consecutive-pass count after a review: one more on a pass, 0 on a fail.
pub open spec fn repetitions_after(repetitions: int, grade: int) -> int
    recommends
        valid_grade(grade),
{
    if grade >= 3 {
        repetitions + 1
    } else {
        0
    }
}

/// How a scheduled card relates to its prior state: content untouched,
/// scheduling fields stepped by the SM-2 rules, the next review set to the
/// sampled instant plus the new interval in seconds.
pub open spec fn schedule_result(c: CardView, grade: int, now: int, r: CardView) -> bool {
    &&& r.id == c.id
    &&& r.front_text == c.front_text
    &&& r.back_text == c.back_text
    &&& r.difficulty == c.difficulty
    &&& r.tags == c.tags
    &&& r.easiness_factor == ef_after(c.easiness_factor as int, grade)
    &&& r.interval == interval_after(
        c.interval as int,
        c.repetitions as int,
        c.easiness_factor as int,
        grade,
    )
    &&& r.repetitions == repetitions_after(c.repetitions as int, grade)
    &&& r.next_review == now + r.interval * 86400
}

/// The machine limits under which every scheduling computation fits its
/// integer type; a demand of the representation, not of the algorithm.
pub open spec fn schedule_fits(c: CardView, grade: int) -> bool {
    &&& c.easiness_factor + 100 <= u32::MAX
    &&& 3 <= grade <= 5 ==> c.repetitions < u32::MAX
    &&& (3 <= grade <= 5 && c.repetitions >= 2) ==> (c.interval * c.easiness_factor + 500) / 1000
        <= u32::MAX
}

/// Schedule one reviewed card against an injected clock reading `now`
/// (Unix seconds). Returns a fresh card; the input is never changed.
pub fn schedule(card: &Card, grade: i32, now: i64) -> (r: Result<Card, ScheduleError>)
    requires
        schedule_fits(card@, grade as int),
        valid_grade(grade as int) ==> now + interval_after(
            card@.interval as int,
            card@.repetitions as int,
            card@.easiness_factor as int,
            grade as int,
        ) * 86400 <= i64::MAX,
    ensures
        r is Ok <==> valid_grade(grade as int),
        r is Err ==> r == Err::<Card, ScheduleError>(ScheduleError::InvalidGrade),
        r is Ok ==> schedule_result(card@, grade as int, now as int, r->Ok_0@),
{
    if grade < 0 || grade > 5 {
        return Err(ScheduleError::InvalidGrade);
    }
    let mut c = card.duplicate();
    if grade >= 3 {
        if c.repetitions == 0 {
            c.interval = 1;
        } else if c.repetitions == 1 {
            c.interval = 6;
        } else {
            let prod: u64 = (c.interval as u64) * (c.easiness_factor as u64) + 500;
            c.interval = (prod / 1000) as u32;
        }
        c.repetitions = c.repetitions + 1;
    } else {
        c.repetitions = 0;
        c.interval = 1;
    }
    let q: u32 = (5 - grade) as u32;
    assert(q <= 5);
    assert(q * q <= 25) by (nonlinear_arith)
        requires
            q <= 5,
    ;
    let qq: u32 = q * q;
    let penalty: u32 = 80 * q + 20 * qq;
    assert(penalty <= 900);
    assert(penalty == 80 * (q as int) + 20 * (q as int) * (q as int)) by (nonlinear_arith)
        requires
            qq == q * q,
            penalty == 80 * q + 20 * qq,
    ;
    let candidate: i64 = card.easiness_factor as i64 + 100 - penalty as i64;
    c.easiness_factor = if candidate < EF_FLOOR_MILLI as i64 {
        EF_FLOOR_MILLI
    } else {
        candidate as u32
    };
    c.next_review = now + (c.interval as i64) * 86400;
    Ok(c)
}

/// Relies on chrono::Utc::now().timestamp(): the system clock, as whole
/// seconds since the Unix epoch. Nothing is assumed of the value returned.
#[verifier::external_body]
fn now_timestamp() -> i64 {
    chrono::Utc::now().timestamp()
}

/// The largest clock reading the scheduler accepts; later readings are
/// clamped so that the next-review timestamp always fits a 64-bit count
/// of seconds.
pub const NOW_CLAMP: i64 = 9_222_000_000_000_000_000;

/// Schedule one reviewed card against the system clock. Same result as
/// [`schedule`] for the instant that was sampled (clamped to [`NOW_CLAMP`]).
pub fn calculate_next_review(card: &Card, grade: i32) -> (r: Result<Card, ScheduleError>)
    requires
        schedule_fits(card@, grade as int),
    ensures
        r is Ok <==> valid_grade(grade as int),
        r is Err ==> r == Err::<Card, ScheduleError>(ScheduleError::InvalidGrade),
        r is Ok ==> exists|t: int|
            t <= NOW_CLAMP && schedule_result(card@, grade as int, t, r->Ok_0@),
{
    let t_raw = now_timestamp();
    let t = if t_raw > NOW_CLAMP {
        NOW_CLAMP
    } else {
        t_raw
    };
    proof {
        if valid_grade(grade as int) {
            let ia = interval_after(
                card@.interval as int,
                card@.repetitions as int,
                card@.easiness_factor as int,
                grade as int,
            );
            assert(0 <= ia <= u32::MAX);
            assert(t + ia * 86400 <= i64::MAX);
        }
    }
    let r = schedule(card, grade, t);
    proof {
        if r is Ok {
            assert(t <= NOW_CLAMP && schedule_result(card@, grade as int, t as int, r->Ok_0@));
        }
    }
    r
}

/// A passing grade on a card never reviewed successfully before puts it at
/// the first learning step: a one-day interval and one recorded pass.
pub proof fn lemma_first_pass(c: CardView, grade: int, now: int, r: CardView)
    requires
        3 <= grade <= 5,
        c.repetitions == 0,
        schedule_result(c, grade, now, r),
    ensures
        r.interval == 1,
        r.repetitions == 1,
{
}

/// A passing grade on a card with exactly one recorded pass puts it at the
/// second learning step: a six-day interval.
pub proof fn lemma_second_pass(c: CardView, grade: int, now: int, r: CardView)
    requires
        3 <= grade <= 5,
        c.repetitions == 1,
        schedule_result(c, grade, now, r),
    ensures
        r.interval == 6,
        r.repetitions == 2,
{
}

/// A failing grade resets any card to the start of learning: no recorded
/// passes and a one-day interval, whatever the prior state.
pub proof fn lemma_fail_resets(c: CardView, grade: int, now: int, r: CardView)
    requires
        0 <= grade < 3,
        schedule_result(c, grade, now, r),
    ensures
        r.repetitions == 0,
        r.interval == 1,
{
}

/// The easiness floor is never violated: for every valid grade and every
/// prior factor at or above 1.3, the updated factor stays at or above 1.3.
pub proof fn lemma_ef_floor(c: CardView, grade: int, now: int, r: CardView)
    requires
        valid_grade(grade),
        c.easiness_factor >= 1300,
        schedule_result(c, grade, now, r),
    ensures
        r.easiness_factor >= 1300,
{
}

/// The interval floor is never violated: a card with at least a one-day
/// interval and the easiness floor keeps at least a one-day interval.
pub proof fn lemma_interval_floor(c: CardView, grade: int, now: int, r: CardView)
    requires
        valid_grade(grade),
        c.easiness_factor >= 1300,
        c.interval >= 1,
        schedule_result(c, grade, now, r),
    ensures
        r.interval >= 1,
{
    if grade >= 3 && c.repetitions >= 2 {
        assert(c.interval * c.easiness_factor >= 1300) by (nonlinear_arith)
            requires
                c.interval >= 1,
                c.easiness_factor >= 1300,
        ;
        assert((c.interval * c.easiness_factor + 500) / 1000 >= 1);
    }
}

/// The next review is exactly the sampled instant plus the new interval in
/// days, at 86400 seconds to the day.
pub proof fn lemma_next_review_exact(c: CardView, grade: int, now: int, r: CardView)
    requires
        schedule_result(c, grade, now, r),
    ensures
        r.next_review == now + r.interval * 86400,
{
}

} // verus!

