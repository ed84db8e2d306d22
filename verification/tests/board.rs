use mdconquest::board::{new_deck, Card, Cell, Deck, Direction, Side};

fn empty_cell() -> Cell {
    Cell { card: None, owner: None }
}

fn occupied(attack: (u8, u8, u8, u8), side: Side) -> Cell {
    Cell { card: Some(Card { attack }), owner: Some(side) }
}

fn board_3x3(cells: Vec<Cell>) -> Deck {
    assert_eq!(cells.len(), 9);
    Deck { size: (3, 3), cells }
}

/// Center placement (index 4) whose top face (5) beats the up neighbor's
/// bottom face (3): index 1 flips to the placer, nothing else changes.
#[test]
fn center_placement_flips_weaker_up_neighbor() {
    let mut cells = vec![empty_cell(); 9];
    cells[1] = occupied((2, 2, 3, 2), Side::Enemy);
    cells[4] = occupied((5, 3, 2, 4), Side::Me);
    let mut deck = board_3x3(cells);

    deck.tick_turn(4);

    assert_eq!(deck.cells[1].owner, Some(Side::Me));
    assert_eq!(deck.cells[1].card, Some(Card { attack: (2, 2, 3, 2) }));
    assert_eq!(deck.cells[4].owner, Some(Side::Me));
    assert_eq!(deck.cells[4].card, Some(Card { attack: (5, 3, 2, 4) }));
    for i in [0usize, 2, 3, 5, 6, 7, 8] {
        assert_eq!(deck.cells[i], empty_cell());
    }
}

/// Same placement, but the up neighbor's bottom face (6) absorbs the
/// attack: 5 - 6 is not strictly positive, so index 1 keeps its owner.
#[test]
fn center_placement_spares_stronger_up_neighbor() {
    let mut cells = vec![empty_cell(); 9];
    cells[1] = occupied((2, 2, 6, 2), Side::Enemy);
    cells[4] = occupied((5, 3, 2, 4), Side::Me);
    let mut deck = board_3x3(cells);

    deck.tick_turn(4);

    assert_eq!(deck.cells[1].owner, Some(Side::Enemy));
    assert_eq!(deck.cells[1].card, Some(Card { attack: (2, 2, 6, 2) }));
    for i in [0usize, 2, 3, 5, 6, 7, 8] {
        assert_eq!(deck.cells[i], empty_cell());
    }
}

/// The up scan from row 1 holds exactly one candidate, index 1; it is
/// empty, so the up walk flips nothing and the board is unchanged.
#[test]
fn empty_up_neighbor_means_no_up_flips() {
    let mut cells = vec![empty_cell(); 9];
    cells[4] = occupied((5, 3, 2, 4), Side::Me);
    let mut deck = board_3x3(cells);

    deck.tick_turn(4);

    for i in 0..9 {
        if i == 4 {
            assert_eq!(deck.cells[i], occupied((5, 3, 2, 4), Side::Me));
        } else {
            assert_eq!(deck.cells[i], empty_cell());
        }
    }
}

/// A target cell without a card makes resolution a no-op.
#[test]
fn missing_card_is_a_no_op() {
    let mut cells = vec![empty_cell(); 9];
    cells[1] = occupied((1, 1, 1, 1), Side::Enemy);
    let mut deck = board_3x3(cells.clone());

    deck.tick_turn(4);

    assert_eq!(deck.cells, cells);
    assert_eq!(deck.size, (3, 3));
}

/// A target cell with a card but no owner makes resolution a no-op.
#[test]
fn missing_owner_is_a_no_op() {
    let mut cells = vec![empty_cell(); 9];
    cells[1] = occupied((1, 1, 1, 1), Side::Enemy);
    cells[4] = Cell { card: Some(Card { attack: (9, 9, 9, 9) }), owner: None };
    let mut deck = board_3x3(cells.clone());

    deck.tick_turn(4);

    assert_eq!(deck.cells, cells);
}

/// A strong card placed at the bottom of a column flips both cells above
/// it in one resolution: the walk keeps going past a successful flip.
#[test]
fn up_walk_flips_a_chain() {
    let mut cells = vec![empty_cell(); 9];
    cells[1] = occupied((1, 1, 3, 1), Side::Enemy);
    cells[4] = occupied((1, 1, 2, 1), Side::Enemy);
    cells[7] = occupied((8, 1, 1, 1), Side::Me);
    let mut deck = board_3x3(cells);

    deck.tick_turn(7);

    // running attack: 8 - 2 = 6 at index 4, then 6 - 3 = 3 at index 1.
    assert_eq!(deck.cells[4].owner, Some(Side::Me));
    assert_eq!(deck.cells[1].owner, Some(Side::Me));
    assert_eq!(deck.cells[4].card, Some(Card { attack: (1, 1, 2, 1) }));
    assert_eq!(deck.cells[1].card, Some(Card { attack: (1, 1, 3, 1) }));
}

/// An empty cell blocks propagation: a weak card beyond the gap keeps its
/// owner no matter how strong the placed card is.
#[test]
fn empty_cell_blocks_propagation() {
    let mut cells = vec![empty_cell(); 9];
    cells[1] = occupied((1, 1, 1, 1), Side::Enemy);
    cells[7] = occupied((8, 1, 1, 1), Side::Me);
    let mut deck = board_3x3(cells);

    deck.tick_turn(7);

    assert_eq!(deck.cells[1].owner, Some(Side::Enemy));
    assert_eq!(deck.cells[4], empty_cell());
}

/// A failed flip leaves the defender in place, and the exhausted attack
/// cannot flip anything farther out either.
#[test]
fn failed_flip_does_not_flip_farther_cells() {
    let mut cells = vec![empty_cell(); 9];
    cells[1] = occupied((1, 1, 0, 1), Side::Enemy);
    cells[4] = occupied((1, 1, 5, 1), Side::Enemy);
    cells[7] = occupied((5, 1, 1, 1), Side::Me);
    let mut deck = board_3x3(cells);

    deck.tick_turn(7);

    // running attack: 5 - 5 = 0 at index 4 (no flip), then 0 - 0 = 0 at index 1.
    assert_eq!(deck.cells[4].owner, Some(Side::Enemy));
    assert_eq!(deck.cells[1].owner, Some(Side::Enemy));
}

/// A placement on the left edge (index 3, row 1 column 0) attacks up,
/// down and right only, and never touches cells outside its row/column.
#[test]
fn edge_placement_attacks_three_directions() {
    let mut cells = vec![empty_cell(); 9];
    cells[0] = occupied((1, 1, 1, 1), Side::Enemy); // up neighbor
    cells[6] = occupied((1, 1, 1, 1), Side::Enemy); // down neighbor
    cells[4] = occupied((1, 1, 1, 1), Side::Enemy); // right neighbor
    cells[5] = occupied((1, 1, 1, 9), Side::Enemy); // farther right, too strong
    cells[2] = occupied((1, 1, 1, 1), Side::Enemy); // unrelated corner
    cells[3] = occupied((5, 5, 5, 5), Side::Me);
    let mut deck = board_3x3(cells);

    deck.tick_turn(3);

    assert_eq!(deck.cells[0].owner, Some(Side::Me)); // 5 - 1 > 0
    assert_eq!(deck.cells[6].owner, Some(Side::Me)); // 5 - 1 > 0
    assert_eq!(deck.cells[4].owner, Some(Side::Me)); // 5 - 1 > 0
    assert_eq!(deck.cells[5].owner, Some(Side::Enemy)); // 4 - 9 <= 0
    assert_eq!(deck.cells[2].owner, Some(Side::Enemy)); // not on a scan
}

/// Cards never change: after a resolution with flips, every cell holds
/// exactly the card it held before.
#[test]
fn resolution_changes_owners_only() {
    let build = || {
        let mut cells = vec![empty_cell(); 9];
        cells[1] = occupied((2, 2, 3, 2), Side::Enemy);
        cells[3] = occupied((9, 9, 9, 9), Side::Enemy);
        cells[5] = occupied((1, 1, 1, 1), Side::Enemy);
        cells[7] = occupied((4, 4, 4, 4), Side::Enemy);
        cells[4] = occupied((5, 3, 2, 4), Side::Me);
        board_3x3(cells)
    };
    let before = build();
    let mut deck = build();

    deck.tick_turn(4);

    for i in 0..9 {
        assert_eq!(deck.cells[i].card, before.cells[i].card);
    }
}

/// Flips along one direction are independent of the other directions'
/// contents: permuting the right-hand scan leaves the up flip identical.
#[test]
fn direction_flips_are_independent() {
    let build = |right_cell: Cell, left_cell: Cell| {
        let mut cells = vec![empty_cell(); 9];
        cells[1] = occupied((2, 2, 3, 2), Side::Enemy);
        cells[4] = occupied((5, 3, 2, 4), Side::Me);
        cells[5] = right_cell;
        cells[3] = left_cell;
        board_3x3(cells)
    };
    let mut a = build(occupied((1, 1, 1, 9), Side::Enemy), empty_cell());
    let mut b = build(empty_cell(), occupied((7, 7, 7, 7), Side::Enemy));

    a.tick_turn(4);
    b.tick_turn(4);

    assert_eq!(a.cells[1], b.cells[1]);
    assert_eq!(a.cells[1].owner, Some(Side::Me));
}

/// Resolving the same placement twice leaves the board exactly as a single
/// resolution does: cards are untouched, so the second walk repeats the
/// first one's comparisons and flips the same cells to the same side.
#[test]
fn second_resolution_changes_nothing() {
    let build = || {
        let mut cells = vec![empty_cell(); 9];
        cells[1] = occupied((2, 2, 3, 2), Side::Enemy);
        cells[5] = occupied((1, 1, 1, 1), Side::Enemy);
        cells[4] = occupied((5, 3, 2, 4), Side::Me);
        board_3x3(cells)
    };
    let mut once = build();
    let mut twice = build();

    once.tick_turn(4);
    twice.tick_turn(4);
    twice.tick_turn(4);

    assert_eq!(once, twice);
}

/// A fresh board is 3 x 3 and entirely empty.
#[test]
fn new_deck_is_empty_3x3() {
    let deck = new_deck();
    assert_eq!(deck.size, (3, 3));
    assert_eq!(deck.cells.len(), 9);
    for cell in &deck.cells {
        assert_eq!(*cell, empty_cell());
    }
}

/// change_side overwrites one owner and nothing else.
#[test]
fn change_side_touches_one_owner() {
    let mut cells = vec![empty_cell(); 9];
    cells[2] = occupied((1, 2, 3, 4), Side::Enemy);
    cells[6] = occupied((5, 6, 7, 8), Side::Enemy);
    let mut deck = board_3x3(cells);

    deck.change_side(2, Side::Me);

    assert_eq!(deck.cells[2].owner, Some(Side::Me));
    assert_eq!(deck.cells[2].card, Some(Card { attack: (1, 2, 3, 4) }));
    assert_eq!(deck.cells[6], occupied((5, 6, 7, 8), Side::Enemy));
}

/// The four directional scans from the center are the four orthogonal
/// neighbors, nearest first.
#[test]
fn center_scans_visit_orthogonal_neighbors() {
    let mut cells = vec![empty_cell(); 9];
    cells[4] = occupied((1, 1, 1, 1), Side::Me);
    let deck = board_3x3(cells);

    let up: Vec<usize> = deck.get_cards(4, Direction::Up).iter().map(|p| p.0).collect();
    let right: Vec<usize> = deck.get_cards(4, Direction::Right).iter().map(|p| p.0).collect();
    let down: Vec<usize> = deck.get_cards(4, Direction::Down).iter().map(|p| p.0).collect();
    let left: Vec<usize> = deck.get_cards(4, Direction::Left).iter().map(|p| p.0).collect();

    assert_eq!(up, vec![1]);
    assert_eq!(right, vec![5]);
    assert_eq!(down, vec![7]);
    assert_eq!(left, vec![3]);
}

/// Scans from a corner run all the way to the opposite edge, nearest
/// cell first.
#[test]
fn corner_scans_reach_the_far_edge() {
    let deck = new_deck();

    let down: Vec<usize> = deck.get_cards(0, Direction::Down).iter().map(|p| p.0).collect();
    let right: Vec<usize> = deck.get_cards(0, Direction::Right).iter().map(|p| p.0).collect();
    let up: Vec<usize> = deck.get_cards(0, Direction::Up).iter().map(|p| p.0).collect();
    let left: Vec<usize> = deck.get_cards(0, Direction::Left).iter().map(|p| p.0).collect();

    assert_eq!(down, vec![3, 6]);
    assert_eq!(right, vec![1, 2]);
    assert_eq!(up, Vec::<usize>::new());
    assert_eq!(left, Vec::<usize>::new());
}
