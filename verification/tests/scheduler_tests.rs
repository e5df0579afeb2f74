use flashcards::card::Card;
use flashcards::scheduler::{calculate_next_review, schedule, ScheduleError};

fn sample_card(repetitions: u32, interval: u32, easiness_factor: u32) -> Card {
    Card {
        id: String::from("card-1"),
        front_text: String::from("front"),
        back_text: String::from("back"),
        difficulty: 1500,
        easiness_factor,
        interval,
        repetitions,
        next_review: 0,
        tags: vec![String::from("alpha"), String::from("beta")],
    }
}

#[test]
fn first_pass_goes_to_one_day() {
    for grade in 3..=5 {
        let card = sample_card(0, 1, 2500);
        let updated = schedule(&card, grade, 1_700_000_000).unwrap();
        assert_eq!(updated.interval, 1);
        assert_eq!(updated.repetitions, 1);
    }
}

#[test]
fn second_pass_goes_to_six_days() {
    for grade in 3..=5 {
        let card = sample_card(1, 1, 2500);
        let updated = schedule(&card, grade, 1_700_000_000).unwrap();
        assert_eq!(updated.interval, 6);
        assert_eq!(updated.repetitions, 2);
    }
}

#[test]
fn review_growth_example() {
    // repetitions 2, interval 6, easiness 2.5, grade 4:
    // interval rounds to 15, repetitions step to 3, easiness stays 2.5.
    let card = sample_card(2, 6, 2500);
    let updated = schedule(&card, 4, 1_700_000_000).unwrap();
    assert_eq!(updated.interval, 15);
    assert_eq!(updated.repetitions, 3);
    assert_eq!(updated.easiness_factor, 2500);
}

#[test]
fn failing_grade_resets_example() {
    // repetitions 3, interval 15, easiness 2.5, grade 1:
    // reset to the start, easiness drops to 1.96.
    let card = sample_card(3, 15, 2500);
    let updated = schedule(&card, 1, 1_700_000_000).unwrap();
    assert_eq!(updated.repetitions, 0);
    assert_eq!(updated.interval, 1);
    assert_eq!(updated.easiness_factor, 1960);
}

#[test]
fn failing_grades_always_reset() {
    for grade in 0..3 {
        let card = sample_card(7, 120, 2800);
        let updated = schedule(&card, grade, 1_700_000_000).unwrap();
        assert_eq!(updated.repetitions, 0);
        assert_eq!(updated.interval, 1);
    }
}

#[test]
fn easiness_floor_holds() {
    let card = sample_card(2, 4, 1300);
    let updated = schedule(&card, 0, 1_700_000_000).unwrap();
    assert_eq!(updated.easiness_factor, 1300);
}

#[test]
fn perfect_recall_raises_easiness() {
    let card = sample_card(2, 4, 2500);
    let updated = schedule(&card, 5, 1_700_000_000).unwrap();
    assert_eq!(updated.easiness_factor, 2600);
}

#[test]
fn next_review_is_now_plus_interval_days() {
    let now = 1_700_000_000i64;
    let card = sample_card(1, 1, 2500);
    let updated = schedule(&card, 4, now).unwrap();
    assert_eq!(updated.next_review, now + 6 * 86400);

    let card = sample_card(0, 1, 2500);
    let updated = schedule(&card, 3, now).unwrap();
    assert_eq!(updated.next_review, now + 86400);
}

#[test]
fn out_of_range_grades_are_rejected() {
    let card = sample_card(0, 1, 2500);
    assert!(matches!(schedule(&card, 6, 0), Err(ScheduleError::InvalidGrade)));
    assert!(matches!(schedule(&card, -1, 0), Err(ScheduleError::InvalidGrade)));
    assert!(matches!(
        calculate_next_review(&card, 17),
        Err(ScheduleError::InvalidGrade)
    ));
}

#[test]
fn content_fields_are_untouched() {
    let card = sample_card(2, 6, 2500);
    let updated = schedule(&card, 4, 1_700_000_000).unwrap();
    assert_eq!(updated.id, card.id);
    assert_eq!(updated.front_text, card.front_text);
    assert_eq!(updated.back_text, card.back_text);
    assert_eq!(updated.difficulty, card.difficulty);
    assert_eq!(updated.tags, card.tags);
}

#[test]
fn wall_clock_scheduling_follows_the_same_rules() {
    let card = sample_card(2, 6, 2500);
    let updated = calculate_next_review(&card, 4).unwrap();
    assert_eq!(updated.interval, 15);
    assert_eq!(updated.repetitions, 3);
    assert_eq!(updated.easiness_factor, 2500);
    // The sampled clock is added in: fifteen days from a real present-day
    // clock lies well past this early-2020 instant.
    assert!(updated.next_review > 1_577_836_800 + 15 * 86400);
}
