/// Board state and the placement-resolution rule: cards, cells, the grid,
/// and the directional flip algorithm.
pub mod board;

/// Random generation of card hands.
pub mod cards;

/// Proved laws of the resolution rule: propagation blocking, direction
/// independence, and stability under repeated resolution.
pub mod laws;
