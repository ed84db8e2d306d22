use vstd::prelude::*;

verus! {

use crate::board::Cell;
use crate::board::Direction;
use crate::board::attack_toward;
use crate::board::defense_sum;
use crate::board::flips_at;
use crate::board::flips_cell;
use crate::board::lemma_flip_hits_occupied;
use crate::board::lemma_scan_shape;
use crate::board::open_prefix;
use crate::board::resolved;
use crate::board::scan_flip_upto;
use crate::board::scan_flips_cell;
use crate::board::scan_indices;

/// Picks the scan position along `d` that flips cell `j`.
proof fn lemma_scan_flip_member(
    cells: Seq<Cell>,
    w: int,
    h: int,
    id: int,
    d: Direction,
    j: int,
) -> (k: int)
    requires
        scan_flips_cell(cells, w, h, id, d, j),
    ensures
        0 <= k < scan_indices(w, h, id, d).len(),
        scan_indices(w, h, id, d)[k] == j,
        flips_at(
            cells,
            scan_indices(w, h, id, d),
            d,
            attack_toward(cells[id].card->Some_0, d),
            k,
        ),
{
    let idxs = scan_indices(w, h, id, d);
    let a0 = attack_toward(cells[id].card->Some_0, d);
    let k = choose|k: int|
        0 <= k < idxs.len() as int && idxs[k] == j && #[trigger] flips_at(cells, idxs, d, a0, k);
    k
}

/// The scans along two different directions never visit the same cell.
proof fn lemma_scans_disjoint(
    w: int,
    h: int,
    id: int,
    d1: Direction,
    d2: Direction,
    k1: int,
    k2: int,
)
    requires
        1 <= w,
        1 <= h,
        0 <= id < w * h,
        d1 != d2,
        0 <= k1 < scan_indices(w, h, id, d1).len(),
        0 <= k2 < scan_indices(w, h, id, d2).len(),
    ensures
        scan_indices(w, h, id, d1)[k1] != scan_indices(w, h, id, d2)[k2],
{
    lemma_scan_shape(w, h, id, d1);
    lemma_scan_shape(w, h, id, d2);
    let j1 = scan_indices(w, h, id, d1)[k1];
    let j2 = scan_indices(w, h, id, d2)[k2];
    if j1 == j2 {
        assert(false);
    }
}

/// Two boards whose cards agree on the cells of one scan make that scan
/// meet the same defence and reach equally far.
proof fn lemma_defense_sum_agree(
    b1: Seq<Cell>,
    b2: Seq<Cell>,
    idxs: Seq<int>,
    d: Direction,
    k: int,
)
    requires
        forall|i: int| 0 <= i < k ==> (b1[#[trigger] idxs[i]]).card == b2[idxs[i]].card,
    ensures
        defense_sum(b1, idxs, d, k) == defense_sum(b2, idxs, d, k),
        open_prefix(b1, idxs, k) == open_prefix(b2, idxs, k),
    decreases k,
{
    if k <= 0 {
    } else {
        lemma_defense_sum_agree(b1, b2, idxs, d, k - 1);
    }
    if open_prefix(b1, idxs, k) {
        assert forall|i: int| 0 <= i < k implies (#[trigger] b2[idxs[i]]).card is Some by {
            assert(b1[idxs[i]].card is Some);
        }
    }
    if open_prefix(b2, idxs, k) {
        assert forall|i: int| 0 <= i < k implies (#[trigger] b1[idxs[i]]).card is Some by {
            assert(b2[idxs[i]].card is Some);
        }
    }
}

/// Two boards that agree on the placed card and on the cards of one scan
/// flip the same cells along that scan.
proof fn lemma_scan_flips_agree(
    b1: Seq<Cell>,
    b2: Seq<Cell>,
    w: int,
    h: int,
    id: int,
    d: Direction,
    j: int,
)
    requires
        b1[id].card == b2[id].card,
        forall|i: int|
            0 <= i < scan_indices(w, h, id, d).len() ==> (b1[#[trigger] scan_indices(
                w,
                h,
                id,
                d,
            )[i]]).card == b2[scan_indices(w, h, id, d)[i]].card,
    ensures
        scan_flips_cell(b1, w, h, id, d, j) == scan_flips_cell(b2, w, h, id, d, j),
{
    let idxs = scan_indices(w, h, id, d);
    let a0 = attack_toward(b1[id].card->Some_0, d);
    assert(attack_toward(b2[id].card->Some_0, d) == a0);
    if scan_flips_cell(b1, w, h, id, d, j) {
        let k = lemma_scan_flip_member(b1, w, h, id, d, j);
        lemma_defense_sum_agree(b1, b2, idxs, d, k + 1);
        assert(flips_at(b2, idxs, d, a0, k));
        assert(scan_flip_upto(b2, idxs, d, a0, idxs.len() as int, j));
    }
    if scan_flips_cell(b2, w, h, id, d, j) {
        let k = lemma_scan_flip_member(b2, w, h, id, d, j);
        lemma_defense_sum_agree(b1, b2, idxs, d, k + 1);
        assert(flips_at(b1, idxs, d, a0, k));
        assert(scan_flip_upto(b1, idxs, d, a0, idxs.len() as int, j));
    }
}

/// Propagation blocking: a cell that stands strictly beyond an empty cell
/// along some direction is never flipped by the placement, so resolution
/// leaves it exactly as it was.
pub proof fn lemma_empty_cell_blocks(
    cells: Seq<Cell>,
    w: int,
    h: int,
    id: int,
    d: Direction,
    k_empty: int,
    k_far: int,
)
    requires
        1 <= w,
        1 <= h,
        cells.len() == w * h,
        0 <= id < w * h,
        0 <= k_empty < k_far < scan_indices(w, h, id, d).len(),
        cells[scan_indices(w, h, id, d)[k_empty]].card is None,
    ensures
        resolved(cells, w, h, id)[scan_indices(w, h, id, d)[k_far]] == cells[scan_indices(
            w,
            h,
            id,
            d,
        )[k_far]],
{
    lemma_scan_shape(w, h, id, d);
    let idxs = scan_indices(w, h, id, d);
    let j = idxs[k_far];
    assert(0 <= j < w * h);
    if flips_cell(cells, w, h, id, j) {
        let d2 = if scan_flips_cell(cells, w, h, id, Direction::Up, j) {
            Direction::Up
        } else if scan_flips_cell(cells, w, h, id, Direction::Right, j) {
            Direction::Right
        } else if scan_flips_cell(cells, w, h, id, Direction::Down, j) {
            Direction::Down
        } else {
            Direction::Left
        };
        assert(scan_flips_cell(cells, w, h, id, d2, j));
        let k2 = lemma_scan_flip_member(cells, w, h, id, d2, j);
        if d2 != d {
            lemma_scans_disjoint(w, h, id, d, d2, k_far, k2);
            assert(false);
        } else {
            assert(k2 == k_far);
            assert(open_prefix(cells, idxs, k2 + 1));
            assert(cells[idxs[k_empty]].card is Some);
            assert(false);
        }
    }
}

/// Direction independence: what a placement does to a cell of one scan
/// depends only on the placed cell and on that scan's cells. Two boards
/// that agree there — however the cells of the other three directions are
/// permuted — resolve that cell identically.
pub proof fn lemma_direction_independence(
    b1: Seq<Cell>,
    b2: Seq<Cell>,
    w: int,
    h: int,
    id: int,
    d: Direction,
    k: int,
)
    requires
        1 <= w,
        1 <= h,
        b1.len() == w * h,
        b2.len() == w * h,
        0 <= id < w * h,
        b1[id] == b2[id],
        forall|i: int|
            0 <= i < scan_indices(w, h, id, d).len() ==> b1[#[trigger] scan_indices(
                w,
                h,
                id,
                d,
            )[i]] == b2[scan_indices(w, h, id, d)[i]],
        0 <= k < scan_indices(w, h, id, d).len(),
    ensures
        resolved(b1, w, h, id)[scan_indices(w, h, id, d)[k]] == resolved(b2, w, h, id)[scan_indices(
            w,
            h,
            id,
            d,
        )[k]],
{
    lemma_scan_shape(w, h, id, d);
    let idxs = scan_indices(w, h, id, d);
    let j = idxs[k];
    assert(0 <= j < w * h);
    assert(b1[j] == b2[j]);
    if b1[id].card is None || b1[id].owner is None {
    } else {
        assert forall|i: int|
            0 <= i < idxs.len() implies (b1[#[trigger] idxs[i]]).card == b2[idxs[i]].card by {
            assert(b1[idxs[i]] == b2[idxs[i]]);
        }
        lemma_scan_flips_agree(b1, b2, w, h, id, d, j);
        assert(flips_cell(b1, w, h, id, j) == flips_cell(b2, w, h, id, j)) by {
            if scan_flips_cell(b1, w, h, id, Direction::Up, j) && d != Direction::Up {
                let k2 = lemma_scan_flip_member(b1, w, h, id, Direction::Up, j);
                lemma_scans_disjoint(w, h, id, d, Direction::Up, k, k2);
            }
            if scan_flips_cell(b1, w, h, id, Direction::Right, j) && d != Direction::Right {
                let k2 = lemma_scan_flip_member(b1, w, h, id, Direction::Right, j);
                lemma_scans_disjoint(w, h, id, d, Direction::Right, k, k2);
            }
            if scan_flips_cell(b1, w, h, id, Direction::Down, j) && d != Direction::Down {
                let k2 = lemma_scan_flip_member(b1, w, h, id, Direction::Down, j);
                lemma_scans_disjoint(w, h, id, d, Direction::Down, k, k2);
            }
            if scan_flips_cell(b1, w, h, id, Direction::Left, j) && d != Direction::Left {
                let k2 = lemma_scan_flip_member(b1, w, h, id, Direction::Left, j);
                lemma_scans_disjoint(w, h, id, d, Direction::Left, k, k2);
            }
            if scan_flips_cell(b2, w, h, id, Direction::Up, j) && d != Direction::Up {
                let k2 = lemma_scan_flip_member(b2, w, h, id, Direction::Up, j);
                lemma_scans_disjoint(w, h, id, d, Direction::Up, k, k2);
            }
            if scan_flips_cell(b2, w, h, id, Direction::Right, j) && d != Direction::Right {
                let k2 = lemma_scan_flip_member(b2, w, h, id, Direction::Right, j);
                lemma_scans_disjoint(w, h, id, d, Direction::Right, k, k2);
            }
            if scan_flips_cell(b2, w, h, id, Direction::Down, j) && d != Direction::Down {
                let k2 = lemma_scan_flip_member(b2, w, h, id, Direction::Down, j);
                lemma_scans_disjoint(w, h, id, d, Direction::Down, k, k2);
            }
            if scan_flips_cell(b2, w, h, id, Direction::Left, j) && d != Direction::Left {
                let k2 = lemma_scan_flip_member(b2, w, h, id, Direction::Left, j);
                lemma_scans_disjoint(w, h, id, d, Direction::Left, k, k2);
            }
        };
    }
}

/// Resolving the same placement a second time changes nothing further:
/// the first resolution leaves the placed cell and every card untouched,
/// so the second walk makes the same comparisons and re-flips the same
/// cells to the same owner.
pub proof fn lemma_resolve_again(cells: Seq<Cell>, w: int, h: int, id: int)
    requires
        1 <= w,
        1 <= h,
        cells.len() == w * h,
        0 <= id < w * h,
    ensures
        resolved(resolved(cells, w, h, id), w, h, id) == resolved(cells, w, h, id),
{
    let b1 = resolved(cells, w, h, id);
    if cells[id].card is None || cells[id].owner is None {
        assert(b1 == cells);
    } else {
        assert(b1.len() == cells.len());
        if flips_cell(cells, w, h, id, id) {
            lemma_flip_hits_occupied(cells, w, h, id, id);
        }
        assert(b1[id] == cells[id]);
        assert forall|j: int| 0 <= j < cells.len() implies (#[trigger] b1[j]).card
            == cells[j].card by {}
        assert forall|j: int| 0 <= j < cells.len() implies flips_cell(b1, w, h, id, j)
            == flips_cell(cells, w, h, id, j) by {
            lemma_scan_shape(w, h, id, Direction::Up);
            lemma_scan_shape(w, h, id, Direction::Right);
            lemma_scan_shape(w, h, id, Direction::Down);
            lemma_scan_shape(w, h, id, Direction::Left);
            lemma_scan_flips_agree(b1, cells, w, h, id, Direction::Up, j);
            lemma_scan_flips_agree(b1, cells, w, h, id, Direction::Right, j);
            lemma_scan_flips_agree(b1, cells, w, h, id, Direction::Down, j);
            lemma_scan_flips_agree(b1, cells, w, h, id, Direction::Left, j);
        }
        assert forall|j: int| 0 <= j < cells.len() implies resolved(b1, w, h, id)[j] == b1[j] by {
            if flips_cell(b1, w, h, id, j) {
                assert(resolved(b1, w, h, id)[j] =~= b1[j]);
            }
        }
        assert(resolved(b1, w, h, id) =~= b1);
    }
}

} // verus!
