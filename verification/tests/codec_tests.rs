use flashcards::card::Card;
use flashcards::codec::serialize_cards;
use flashcards::decode::deserialize_cards;

fn assert_cards_equal(a: &Card, b: &Card) {
    assert_eq!(a.id, b.id);
    assert_eq!(a.front_text, b.front_text);
    assert_eq!(a.back_text, b.back_text);
    assert_eq!(a.difficulty, b.difficulty);
    assert_eq!(a.easiness_factor, b.easiness_factor);
    assert_eq!(a.interval, b.interval);
    assert_eq!(a.repetitions, b.repetitions);
    assert_eq!(a.next_review, b.next_review);
    assert_eq!(a.tags, b.tags);
}

#[test]
fn one_card_has_the_expected_text() {
    let card = Card {
        id: String::from("a"),
        front_text: String::from("f"),
        back_text: String::from("b"),
        difficulty: 1,
        easiness_factor: 2500,
        interval: 6,
        repetitions: 2,
        next_review: 1_700_000_000,
        tags: vec![String::from("x"), String::from("y")],
    };
    let text = serialize_cards(&vec![card]);
    let expected = "[{\"id\":\"a\",\"front_text\":\"f\",\"back_text\":\"b\",\"difficulty\":0000000001,\"easiness_factor\":0000002500,\"interval\":0000000006,\"repetitions\":0000000002,\"next_review\":+0000000001700000000,\"tags\":[\"x\",\"y\"]}]";
    assert_eq!(text, expected);
}

#[test]
fn empty_deck_round_trips() {
    let cards: Vec<Card> = Vec::new();
    let text = serialize_cards(&cards);
    assert_eq!(text, "[]");
    let back = deserialize_cards(&text).unwrap();
    assert!(back.is_empty());
}

#[test]
fn deck_round_trips_field_for_field() {
    let cards = vec![
        Card {
            id: String::from("first-card"),
            front_text: String::from("What is the capital of France?"),
            back_text: String::from("Paris"),
            difficulty: 1200,
            easiness_factor: 2500,
            interval: 6,
            repetitions: 2,
            next_review: 1_700_000_000,
            tags: vec![String::from("geo"), String::from("easy")],
        },
        Card {
            id: String::from("second-card"),
            front_text: String::from("empty tags here"),
            back_text: String::from(""),
            difficulty: 0,
            easiness_factor: 1300,
            interval: 1,
            repetitions: 0,
            next_review: -12345,
            tags: Vec::new(),
        },
    ];
    let text = serialize_cards(&cards);
    let back = deserialize_cards(&text).unwrap();
    assert_eq!(back.len(), cards.len());
    for (a, b) in back.iter().zip(cards.iter()) {
        assert_cards_equal(a, b);
    }
}

#[test]
fn quotes_and_backslashes_round_trip() {
    let cards = vec![Card {
        id: String::from("q\"uo\\te"),
        front_text: String::from("a \\ b \" c"),
        back_text: String::from("\\\\\"\""),
        difficulty: 7,
        easiness_factor: 1999,
        interval: 3,
        repetitions: 1,
        next_review: i64::MIN,
        tags: vec![String::from("tag \"with\" quotes"), String::from("\\")],
    }];
    let text = serialize_cards(&cards);
    let back = deserialize_cards(&text).unwrap();
    assert_eq!(back.len(), 1);
    assert_cards_equal(&back[0], &cards[0]);
}

#[test]
fn extreme_numbers_round_trip() {
    let cards = vec![Card {
        id: String::from("edge"),
        front_text: String::from(""),
        back_text: String::from(""),
        difficulty: u32::MAX,
        easiness_factor: u32::MAX,
        interval: u32::MAX,
        repetitions: u32::MAX,
        next_review: i64::MAX,
        tags: vec![String::from("")],
    }];
    let text = serialize_cards(&cards);
    let back = deserialize_cards(&text).unwrap();
    assert_cards_equal(&back[0], &cards[0]);
}

#[test]
fn malformed_texts_are_rejected() {
    assert!(deserialize_cards("").is_none());
    assert!(deserialize_cards("nonsense").is_none());
    assert!(deserialize_cards("[").is_none());
    assert!(deserialize_cards("[]]").is_none());
    assert!(deserialize_cards("[{\"id\":\"a\"}]").is_none());
    let good = serialize_cards(&Vec::new());
    let mut with_junk = good.clone();
    with_junk.push(' ');
    assert!(deserialize_cards(&with_junk).is_none());
}
