use mdconquest::cards::{generate_card_deck, generate_cards};

/// Every generated card carries four faces in the playable range 1..=8.
#[test]
fn generated_cards_stay_in_range() {
    quad_rand::srand(424242);
    let cards = generate_cards(64);
    assert_eq!(cards.len(), 64);
    for card in &cards {
        let (top, right, bottom, left) = card.attack;
        assert!((1..=8).contains(&top));
        assert!((1..=8).contains(&right));
        assert!((1..=8).contains(&bottom));
        assert!((1..=8).contains(&left));
    }
}

/// Generation consults the random generator: with enough draws every face
/// value takes more than one distinct value.
#[test]
fn generated_cards_vary() {
    quad_rand::srand(7);
    let cards = generate_cards(64);
    let mut seen = [false; 9];
    for card in &cards {
        seen[card.attack.0 as usize] = true;
    }
    assert!(seen.iter().filter(|s| **s).count() > 1);
}

/// A generated hand holds exactly the asked-for number of cards.
#[test]
fn generated_hand_has_requested_size() {
    quad_rand::srand(99);
    let hand = generate_card_deck(6);
    assert_eq!(hand.cards.len(), 6);
    let empty = generate_card_deck(0);
    assert_eq!(empty.cards.len(), 0);
}
