use flashcards::analytics::{analyze_learning_pattern, AnalyticsError};
use flashcards::card::Card;

fn card_with(difficulty: u32, easiness_factor: u32, repetitions: u32, n: u32) -> Card {
    Card {
        id: format!("card-{}", n),
        front_text: String::from("front"),
        back_text: String::from("back"),
        difficulty,
        easiness_factor,
        interval: 1,
        repetitions,
        next_review: 0,
        tags: Vec::new(),
    }
}

#[test]
fn empty_collection_is_rejected() {
    let cards: Vec<Card> = Vec::new();
    assert!(matches!(
        analyze_learning_pattern(&cards),
        Err(AnalyticsError::EmptyCollection)
    ));
}

#[test]
fn all_mastered_gives_full_success_rate() {
    let cards = vec![
        card_with(1000, 2600, 6, 0),
        card_with(2000, 2800, 9, 1),
        card_with(3000, 2501, 7, 2),
    ];
    let a = analyze_learning_pattern(&cards).unwrap();
    assert_eq!(a.total_cards, 3);
    assert_eq!(a.mastered_cards, 3);
    assert_eq!(a.success_rate, 1000);
}

#[test]
fn mixed_collection_statistics() {
    // One mastered card of two: the rate is one half; the mean difficulty
    // of 1.0 and 2.0 is 1.5 (all in thousandths).
    let cards = vec![card_with(1000, 2600, 6, 0), card_with(2000, 2500, 9, 1)];
    let a = analyze_learning_pattern(&cards).unwrap();
    assert_eq!(a.total_cards, 2);
    assert_eq!(a.mastered_cards, 1);
    assert_eq!(a.avg_response_time, 1500);
    assert_eq!(a.success_rate, 500);
    assert_eq!(a.study_streak, 15);
}

#[test]
fn mastery_needs_both_thresholds() {
    // Easiness just above 2.5 but too few passes, and enough passes at
    // exactly 2.5: neither is mastered.
    let cards = vec![card_with(1000, 2501, 5, 0), card_with(1000, 2500, 6, 1)];
    let a = analyze_learning_pattern(&cards).unwrap();
    assert_eq!(a.mastered_cards, 0);
    assert_eq!(a.success_rate, 0);
}

#[test]
fn ratios_round_half_up() {
    // One mastered of three: 333.5 thousandths rounds through
    // (1000 + 1) / 3 = 333. Mean of 1, 1 and 2 thousandths is
    // (4 + 1) / 3 = 1.
    let cards = vec![
        card_with(1, 2600, 6, 0),
        card_with(1, 1300, 0, 1),
        card_with(2, 1300, 0, 2),
    ];
    let a = analyze_learning_pattern(&cards).unwrap();
    assert_eq!(a.success_rate, 333);
    assert_eq!(a.avg_response_time, 1);
}
