use flashcards::card::Card;

#[test]
fn duplicate_copies_every_field() {
    let card = Card {
        id: String::from("id-9"),
        front_text: String::from("front side"),
        back_text: String::from("back side"),
        difficulty: 1234,
        easiness_factor: 2500,
        interval: 42,
        repetitions: 7,
        next_review: -5,
        tags: vec![String::from("one"), String::from("two")],
    };
    let copy = card.duplicate();
    assert_eq!(copy.id, card.id);
    assert_eq!(copy.front_text, card.front_text);
    assert_eq!(copy.back_text, card.back_text);
    assert_eq!(copy.difficulty, card.difficulty);
    assert_eq!(copy.easiness_factor, card.easiness_factor);
    assert_eq!(copy.interval, card.interval);
    assert_eq!(copy.repetitions, card.repetitions);
    assert_eq!(copy.next_review, card.next_review);
    assert_eq!(copy.tags, card.tags);
}
