//! The card model: one learnable fact and its scheduling state.

use vstd::prelude::*;

verus! {

/// One flashcard. Review state plus display content.
///
/// `difficulty` and `easiness_factor` are held in thousandths of a unit
/// (so `2500` stands for a factor of 2.5), which keeps every update rule
/// exact integer arithmetic.
pub struct Card {
    /// Opaque unique identifier, assigned at creation, never changed here.
    pub id: String,
    /// Display content; irrelevant to scheduling.
    pub front_text: String,
    /// Display content; irrelevant to scheduling.
    pub back_text: String,
    /// Response-difficulty score in thousandths; an analytics input only.
    pub difficulty: u32,
    /// Scheduling parameter in thousandths; at least 1300 after any update.
    pub easiness_factor: u32,
    /// Days until the next review; at least 1 after any update.
    pub interval: u32,
    /// Count of consecutive passing reviews; reset to 0 on failure.
    pub repetitions: u32,
    /// Unix timestamp (seconds) of the next scheduled review.
    pub next_review: i64,
    /// Free-form labels, ordered; opaque to scheduling and analytics.
    pub tags: Vec<String>,
}

/// The mathematical value of a `Card`: every field as a plain value.
pub struct CardView {
    pub id: Seq<char>,
    pub front_text: Seq<char>,
    pub back_text: Seq<char>,
    pub difficulty: u32,
    pub easiness_factor: u32,
    pub interval: u32,
    pub repetitions: u32,
    pub next_review: i64,
    pub tags: Seq<Seq<char>>,
}

impl View for Card {
    type V = CardView;

    open spec fn view(&self) -> CardView {
        CardView {
            id: self.id@,
            front_text: self.front_text@,
            back_text: self.back_text@,
            difficulty: self.difficulty,
            easiness_factor: self.easiness_factor,
            interval: self.interval,
            repetitions: self.repetitions,
            next_review: self.next_review,
            tags: self.tags@.map_values(|t: String| t@),
        }
    }
}

impl Card {
    /// An explicit field-for-field copy; the scheduler consumes a card by
    /// reference and returns a fresh value.
    pub fn duplicate(&self) -> (r: Card)
        ensures
            r@ == self@,
    {
        let mut tags: Vec<String> = Vec::new();
        let mut i: usize = 0;
        while i < self.tags.len()
            invariant
                i <= self.tags.len(),
                tags@.len() == i as int,
                forall|j: int| 0 <= j < i ==> tags@[j]@ == self.tags@[j]@,
            decreases self.tags.len() - i,
        {
            tags.push(self.tags[i].clone());
            i += 1;
        }
        let r = Card {
            id: self.id.clone(),
            front_text: self.front_text.clone(),
            back_text: self.back_text.clone(),
            difficulty: self.difficulty,
            easiness_factor: self.easiness_factor,
            interval: self.interval,
            repetitions: self.repetitions,
            next_review: self.next_review,
            tags,
        };
        proof {
            assert(r@.tags =~= self@.tags);
            assert(r@ =~= self@);
        }
        r
    }
}

} // verus!
