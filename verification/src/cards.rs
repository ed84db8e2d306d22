use vstd::prelude::*;

verus! {

use crate::board::Card;

/// A hand of generated cards.
#[derive(Debug, PartialEq, Eq)]
pub struct CardDeck {
    pub cards: Vec<Card>,
}

/// Every face of `c` lies in the playable range 1 through 8.
pub open spec fn card_in_range(c: Card) -> bool {
    &&& 1 <= c.attack.0 <= 8
    &&& 1 <= c.attack.1 <= 8
    &&& 1 <= c.attack.2 <= 8
    &&& 1 <= c.attack.3 <= 8
}

/// Relies on quad_rand::gen_range: for integer arguments with `low < high`
/// it returns `low + floor((high - low) * r)` for a pseudo-random `r` in
/// [0, 1) drawn from the crate's global generator, so every outcome lies
/// in [low, high).
#[verifier::external_body]
fn random_in_range(low: u8, high: u8) -> (r: u8)
    requires
        low < high,
    ensures
        low <= r < high,
{
    quad_rand::gen_range(low, high)
}

/// Draws `count` random cards, each face a pseudo-random value in 1..=8.
pub fn generate_cards(count: usize) -> (r: Vec<Card>)
    ensures
        r@.len() == count,
        forall|i: int| 0 <= i < count ==> card_in_range(#[trigger] r@[i]),
{
    let mut result: Vec<Card> = Vec::new();
    let mut k: usize = 0;
    while k < count
        invariant
            k <= count,
            result@.len() == k,
            forall|i: int| 0 <= i < k ==> card_in_range(#[trigger] result@[i]),
        decreases count - k,
    {
        let top = random_in_range(1, 9);
        let right = random_in_range(1, 9);
        let bottom = random_in_range(1, 9);
        let left = random_in_range(1, 9);
        result.push(Card { attack: (top, right, bottom, left) });
        k = k + 1;
    }
    result
}

/// Draws a hand of `count` random cards.
pub fn generate_card_deck(count: usize) -> (r: CardDeck)
    ensures
        r.cards@.len() == count,
        forall|i: int| 0 <= i < count ==> card_in_range(#[trigger] r.cards@[i]),
{
    CardDeck { cards: generate_cards(count) }
}

} // verus!
