use vstd::prelude::*;

verus! {

/// A playing card: an attack profile of four face values, in the order
/// (top, right, bottom, left). A card never changes once created.
#[derive(Clone, Copy, Debug, PartialEq, Eq)]
pub struct Card {
    pub attack: (u8, u8, u8, u8),
}

/// The owner tag attached to an occupied board cell.
#[derive(Clone, Copy, Debug, PartialEq, Eq)]
pub enum Side {
    Me,
    Enemy,
}

/// One board cell: an optional card and, when occupied, its owner.
#[verifier::ext_equal]
#[derive(Clone, Copy, Debug, PartialEq, Eq)]
pub struct Cell {
    pub card: Option<Card>,
    pub owner: Option<Side>,
}

/// The playing board: a fixed `size.0 x size.1` grid of cells stored
/// row-major, so the cell at row `r`, column `c` is `cells[r * size.0 + c]`.
#[derive(Debug, PartialEq, Eq)]
pub struct Deck {
    pub size: (usize, usize),
    pub cells: Vec<Cell>,
}

/// One of the four compass directions a placement attacks along.
/// `Up` walks toward row 0, `Down` toward the last row, `Left` toward
/// column 0 and `Right` toward the last column.
#[derive(Clone, Copy, Debug, PartialEq, Eq)]
pub enum Direction {
    Up,
    Right,
    Down,
    Left,
}

/// Every occupied cell has an owner, and only occupied cells do.
pub open spec fn cells_consistent(cells: Seq<Cell>) -> bool {
    forall|j: int|
        0 <= j < cells.len() ==> ((#[trigger] cells[j]).card is Some <==> cells[j].owner is Some)
}

/// The attack value on the face of `c` that points in direction `d`.
pub open spec fn attack_toward(c: Card, d: Direction) -> int {
    match d {
        Direction::Up => c.attack.0 as int,
        Direction::Right => c.attack.1 as int,
        Direction::Down => c.attack.2 as int,
        Direction::Left => c.attack.3 as int,
    }
}

/// The attack value on the face of `c` that points back toward a card
/// approaching along direction `d` (the face opposite to `d`).
pub open spec fn attack_back(c: Card, d: Direction) -> int {
    match d {
        Direction::Up => c.attack.2 as int,
        Direction::Right => c.attack.3 as int,
        Direction::Down => c.attack.0 as int,
        Direction::Left => c.attack.1 as int,
    }
}

/// The flat indices of the cells strictly between cell `id` and the board
/// edge along `d`, nearest first, on a row-major `w x h` board.
pub open spec fn scan_indices(w: int, h: int, id: int, d: Direction) -> Seq<int> {
    let r = id / w;
    let c = id % w;
    match d {
        Direction::Up => Seq::new(r as nat, |k: int| (r - 1 - k) * w + c),
        Direction::Right => Seq::new((w - 1 - c) as nat, |k: int| r * w + (c + 1 + k)),
        Direction::Down => Seq::new((h - 1 - r) as nat, |k: int| (r + 1 + k) * w + c),
        Direction::Left => Seq::new(c as nat, |k: int| r * w + (c - 1 - k)),
    }
}

/// The defence met over the first `k` scanned cells: the sum of the facing
/// attack values of the cards on `idxs[0], ..., idxs[k - 1]`.
pub open spec fn defense_sum(cells: Seq<Cell>, idxs: Seq<int>, d: Direction, k: int) -> int
    decreases k,
{
    if k <= 0 {
        0
    } else {
        defense_sum(cells, idxs, d, k - 1) + attack_back(cells[idxs[k - 1]].card->Some_0, d)
    }
}

/// The first `k` scanned cells are all occupied, so the walk reaches that far.
pub open spec fn open_prefix(cells: Seq<Cell>, idxs: Seq<int>, k: int) -> bool {
    forall|i: int| 0 <= i < k ==> (#[trigger] cells[idxs[i]]).card is Some
}

/// The cell at scan position `k` is flipped by a walk that starts with
/// attack `a0`: the walk reaches it, and the running attack is still
/// strictly positive after its defence is subtracted.
pub open spec fn flips_at(cells: Seq<Cell>, idxs: Seq<int>, d: Direction, a0: int, k: int) -> bool {
    open_prefix(cells, idxs, k + 1) && a0 - defense_sum(cells, idxs, d, k + 1) > 0
}

/// Cell `j` is flipped by one of the first `hi` positions of the scan.
pub open spec fn scan_flip_upto(
    cells: Seq<Cell>,
    idxs: Seq<int>,
    d: Direction,
    a0: int,
    hi: int,
    j: int,
) -> bool {
    exists|k: int|
        0 <= k < hi && idxs[k] == j && #[trigger] flips_at(cells, idxs, d, a0, k)
}

/// Cell `j` is flipped by the walk along `d` from the card placed at `id`.
pub open spec fn scan_flips_cell(
    cells: Seq<Cell>,
    w: int,
    h: int,
    id: int,
    d: Direction,
    j: int,
) -> bool {
    scan_flip_upto(
        cells,
        scan_indices(w, h, id, d),
        d,
        attack_toward(cells[id].card->Some_0, d),
        scan_indices(w, h, id, d).len() as int,
        j,
    )
}

/// Cell `j` is flipped by the placement at `id` along some direction.
pub open spec fn flips_cell(cells: Seq<Cell>, w: int, h: int, id: int, j: int) -> bool {
    ||| scan_flips_cell(cells, w, h, id, Direction::Up, j)
    ||| scan_flips_cell(cells, w, h, id, Direction::Right, j)
    ||| scan_flips_cell(cells, w, h, id, Direction::Down, j)
    ||| scan_flips_cell(cells, w, h, id, Direction::Left, j)
}

/// The board after resolving the placement at `id`: unchanged when the
/// target cell lacks a card or an owner; otherwise every flipped cell takes
/// the placed card's owner and every cell keeps its card.
pub open spec fn resolved(cells: Seq<Cell>, w: int, h: int, id: int) -> Seq<Cell> {
    if cells[id].card is None || cells[id].owner is None {
        cells
    } else {
        Seq::new(
            cells.len(),
            |j: int|
                if flips_cell(cells, w, h, id, j) {
                    Cell { card: cells[j].card, owner: Some(cells[id].owner->Some_0) }
                } else {
                    cells[j]
                },
        )
    }
}

/// `gc` lists, nearest first, the scanned indices along `d` together with a
/// snapshot of the cells that stood there in `cells`.
pub open spec fn scan_matches(
    gc: Seq<(usize, Cell)>,
    cells: Seq<Cell>,
    w: int,
    h: int,
    id: int,
    d: Direction,
) -> bool {
    &&& gc.len() == scan_indices(w, h, id, d).len()
    &&& forall|k: int|
        0 <= k < gc.len() ==> {
            let idxs = scan_indices(w, h, id, d);
            (#[trigger] gc[k]).0 as int == idxs[k] && gc[k].1 == cells[idxs[k]]
        }
}

/// Row and column of an in-range flat index on a `w x h` row-major board.
pub proof fn lemma_row_col(id: int, w: int, h: int)
    requires
        1 <= w,
        1 <= h,
        0 <= id,
        id < w * h,
    ensures
        0 <= id % w < w,
        0 <= id / w < h,
        id == (id / w) * w + (id % w),
{
    vstd::arithmetic::div_mod::lemma_fundamental_div_mod(id, w);
    vstd::arithmetic::div_mod::lemma_mod_bound(id, w);
    let r = id / w;
    let m = id % w;
    assert(id == r * w + m) by (nonlinear_arith)
        requires id == w * r + m,
    ;
    assert(0 <= r && r < h) by (nonlinear_arith)
        requires
            id == w * r + m,
            0 <= m < w,
            0 <= id,
            id < w * h,
            1 <= w,
            1 <= h,
    ;
}

/// Shape of a directional scan: its length, and row, column and bounds of
/// every scanned index. In particular every scanned index is in range,
/// distinct from the placement index, in the same column (`Up`, `Down`) or
/// row (`Left`, `Right`) as the placement, at distance `k + 1` from it.
pub proof fn lemma_scan_shape(w: int, h: int, id: int, d: Direction)
    requires
        1 <= w,
        1 <= h,
        0 <= id < w * h,
    ensures
        scan_indices(w, h, id, d).len() == (match d {
            Direction::Up => id / w,
            Direction::Right => w - 1 - id % w,
            Direction::Down => h - 1 - id / w,
            Direction::Left => id % w,
        }),
        forall|k: int|
            0 <= k < scan_indices(w, h, id, d).len() ==> {
                let j = #[trigger] scan_indices(w, h, id, d)[k];
                &&& 0 <= j < w * h
                &&& j != id
                &&& (match d {
                    Direction::Up => j % w == id % w && j / w == id / w - 1 - k,
                    Direction::Right => j / w == id / w && j % w == id % w + 1 + k,
                    Direction::Down => j % w == id % w && j / w == id / w + 1 + k,
                    Direction::Left => j / w == id / w && j % w == id % w - 1 - k,
                })
            },
{
    let r = id / w;
    let c = id % w;
    lemma_row_col(id, w, h);
    let idxs = scan_indices(w, h, id, d);
    assert forall|k: int| 0 <= k < idxs.len() implies {
        let j = #[trigger] idxs[k];
        &&& 0 <= j < w * h
        &&& j != id
        &&& (match d {
            Direction::Up => j % w == id % w && j / w == id / w - 1 - k,
            Direction::Right => j / w == id / w && j % w == id % w + 1 + k,
            Direction::Down => j % w == id % w && j / w == id / w + 1 + k,
            Direction::Left => j / w == id / w && j % w == id % w - 1 - k,
        })
    } by {
        match d {
            Direction::Up => {
                let q = r - 1 - k;
                assert(idxs[k] == q * w + c);
                vstd::arithmetic::div_mod::lemma_fundamental_div_mod_converse(q * w + c, w, q, c);
                assert(0 <= q * w + c < w * h) by (nonlinear_arith)
                    requires 0 <= q, q < h, 0 <= c, c < w, 1 <= w,
                ;
            }
            Direction::Right => {
                let cc = c + 1 + k;
                assert(idxs[k] == r * w + cc);
                vstd::arithmetic::div_mod::lemma_fundamental_div_mod_converse(r * w + cc, w, r, cc);
                assert(0 <= r * w + cc < w * h) by (nonlinear_arith)
                    requires 0 <= r, r < h, 0 <= cc, cc < w, 1 <= w,
                ;
            }
            Direction::Down => {
                let q = r + 1 + k;
                assert(idxs[k] == q * w + c);
                vstd::arithmetic::div_mod::lemma_fundamental_div_mod_converse(q * w + c, w, q, c);
                assert(0 <= q * w + c < w * h) by (nonlinear_arith)
                    requires 0 <= q, q < h, 0 <= c, c < w, 1 <= w,
                ;
            }
            Direction::Left => {
                let cc = c - 1 - k;
                assert(idxs[k] == r * w + cc);
                vstd::arithmetic::div_mod::lemma_fundamental_div_mod_converse(r * w + cc, w, r, cc);
                assert(0 <= r * w + cc < w * h) by (nonlinear_arith)
                    requires 0 <= r, r < h, 0 <= cc, cc < w, 1 <= w,
                ;
            }
        }
    };
}

/// A cell flipped by the placement at `id` is a cell of the board, is not
/// the placed cell itself, and holds a card.
pub proof fn lemma_flip_hits_occupied(cells: Seq<Cell>, w: int, h: int, id: int, j: int)
    requires
        1 <= w,
        1 <= h,
        cells.len() == w * h,
        0 <= id < w * h,
        flips_cell(cells, w, h, id, j),
    ensures
        0 <= j < w * h,
        j != id,
        cells[j].card is Some,
{
    if scan_flips_cell(cells, w, h, id, Direction::Up, j) {
        lemma_scan_flip_occupied(cells, w, h, id, Direction::Up, j);
    } else if scan_flips_cell(cells, w, h, id, Direction::Right, j) {
        lemma_scan_flip_occupied(cells, w, h, id, Direction::Right, j);
    } else if scan_flips_cell(cells, w, h, id, Direction::Down, j) {
        lemma_scan_flip_occupied(cells, w, h, id, Direction::Down, j);
    } else {
        lemma_scan_flip_occupied(cells, w, h, id, Direction::Left, j);
    }
}

proof fn lemma_scan_flip_occupied(cells: Seq<Cell>, w: int, h: int, id: int, d: Direction, j: int)
    requires
        1 <= w,
        1 <= h,
        cells.len() == w * h,
        0 <= id < w * h,
        scan_flips_cell(cells, w, h, id, d, j),
    ensures
        0 <= j < w * h,
        j != id,
        cells[j].card is Some,
{
    lemma_scan_shape(w, h, id, d);
    let idxs = scan_indices(w, h, id, d);
    let a0 = attack_toward(cells[id].card->Some_0, d);
    let k = choose|k: int|
        0 <= k < idxs.len() as int && idxs[k] == j && #[trigger] flips_at(cells, idxs, d, a0, k);
    assert(open_prefix(cells, idxs, k + 1));
    assert(cells[idxs[k]].card is Some);
}

/// The face of `c` that points back toward a card arriving along `d`.
fn attack_back_value(c: &Card, d: Direction) -> (r: u8)
    ensures
        r as int == attack_back(*c, d),
{
    match d {
        Direction::Up => c.attack.2,
        Direction::Right => c.attack.3,
        Direction::Down => c.attack.0,
        Direction::Left => c.attack.1,
    }
}

/// Builds the canonical empty 3 x 3 board a match starts from.
pub fn new_deck() -> (d: Deck)
    ensures
        d.size == (3usize, 3usize),
        d.cells@.len() == 9,
        forall|j: int|
            0 <= j < 9 ==> (#[trigger] d.cells@[j]).card is None && d.cells@[j].owner is None,
        d.wf(),
        d.consistent(),
{
    let mut cells: Vec<Cell> = Vec::new();
    let mut i: usize = 0;
    while i < 9
        invariant
            i <= 9,
            cells@.len() == i,
            forall|j: int|
                0 <= j < i ==> (#[trigger] cells@[j]).card is None && cells@[j].owner is None,
        decreases 9 - i,
    {
        cells.push(Cell { card: None, owner: None });
        i = i + 1;
    }
    Deck { size: (3, 3), cells }
}

impl Deck {
    /// The cell count matches the board dimensions.
    pub open spec fn wf(self) -> bool {
        self.cells@.len() == self.size.0 * self.size.1
    }

    /// Every occupied cell of the board has an owner, and only those.
    pub open spec fn consistent(self) -> bool {
        cells_consistent(self.cells@)
    }

    /// Overwrites the owner of one cell, leaving every other field of the
    /// board untouched.
    pub fn change_side(&mut self, card: usize, side: Side)
        requires
            card < old(self).cells@.len(),
        ensures
            final(self).size == old(self).size,
            final(self).cells@.len() == old(self).cells@.len(),
            final(self).cells@[card as int].card == old(self).cells@[card as int].card,
            final(self).cells@[card as int].owner == Some(side),
            forall|j: int|
                0 <= j < old(self).cells@.len() && j != card ==> final(self).cells@[j] == old(
                    self,
                ).cells@[j],
    {
        let mut c = self.cells[card];
        c.owner = Some(side);
        self.cells.set(card, c);
    }

    /// Collects the cells strictly between cell `card_id` and the board
    /// edge along `direction`, nearest first, each with its flat index.
    pub fn get_cards(&self, card_id: usize, direction: Direction) -> (r: Vec<(usize, Cell)>)
        requires
            self.wf(),
            card_id < self.cells@.len(),
        ensures
            scan_matches(
                r@,
                self.cells@,
                self.size.0 as int,
                self.size.1 as int,
                card_id as int,
                direction,
            ),
    {
        let w = self.size.0;
        let h = self.size.1;
        proof {
            assert(1 <= w as int && 1 <= h as int) by (nonlinear_arith)
                requires
                    self.cells@.len() == w as int * h as int,
                    1 <= self.cells@.len(),
                    0 <= w as int,
                    0 <= h as int,
            ;
            lemma_row_col(card_id as int, w as int, h as int);
            lemma_scan_shape(w as int, h as int, card_id as int, direction);
        }
        let n = self.cells.len();
        let current_x = card_id % w;
        let current_y = card_id / w;

        let mut result: Vec<(usize, Cell)> = Vec::new();

        match direction {
            Direction::Right => {
                let mut x = current_x + 1;
                while x < w
                    invariant
                        self.wf(),
                        card_id < self.cells@.len(),
                        n == self.cells@.len(),
                        w == self.size.0,
                        h == self.size.1,
                        1 <= w,
                        1 <= h,
                        current_x as int == card_id as int % (w as int),
                        current_y as int == card_id as int / (w as int),
                        current_x < w,
                        current_y < h,
                        current_x + 1 <= x <= w,
                        result@.len() == x - (current_x + 1),
                        forall|k: int|
                            0 <= k < result@.len() ==> {
                                let idxs = scan_indices(
                                    w as int,
                                    h as int,
                                    card_id as int,
                                    Direction::Right,
                                );
                                (#[trigger] result@[k]).0 as int == idxs[k] && result@[k].1
                                    == self.cells@[idxs[k]]
                            },
                    decreases w - x,
                {
                    proof {
                        assert((current_y as int) * (w as int) + (x as int) < self.cells@.len())
                            by (nonlinear_arith)
                            requires
                                0 <= current_y as int,
                                current_y as int <= h as int - 1,
                                0 <= x as int,
                                x as int <= w as int - 1,
                                1 <= w as int,
                                self.cells@.len() == w as int * h as int,
                        ;
                    }
                    let idx = current_y * w + x;
                    result.push((idx, self.cells[idx]));
                    x = x + 1;
                }
            }
            Direction::Left => {
                let mut x = current_x;
                while x > 0
                    invariant
                        self.wf(),
                        card_id < self.cells@.len(),
                        n == self.cells@.len(),
                        w == self.size.0,
                        h == self.size.1,
                        1 <= w,
                        1 <= h,
                        current_x as int == card_id as int % (w as int),
                        current_y as int == card_id as int / (w as int),
                        current_x < w,
                        current_y < h,
                        x <= current_x,
                        result@.len() == current_x - x,
                        forall|k: int|
                            0 <= k < result@.len() ==> {
                                let idxs = scan_indices(
                                    w as int,
                                    h as int,
                                    card_id as int,
                                    Direction::Left,
                                );
                                (#[trigger] result@[k]).0 as int == idxs[k] && result@[k].1
                                    == self.cells@[idxs[k]]
                            },
                    decreases x,
                {
                    x = x - 1;
                    proof {
                        assert((current_y as int) * (w as int) + (x as int) < self.cells@.len())
                            by (nonlinear_arith)
                            requires
                                0 <= current_y as int,
                                current_y as int <= h as int - 1,
                                0 <= x as int,
                                x as int <= w as int - 1,
                                1 <= w as int,
                                self.cells@.len() == w as int * h as int,
                        ;
                    }
                    let idx = current_y * w + x;
                    result.push((idx, self.cells[idx]));
                }
            }
            Direction::Down => {
                let mut y = current_y + 1;
                while y < h
                    invariant
                        self.wf(),
                        card_id < self.cells@.len(),
                        n == self.cells@.len(),
                        w == self.size.0,
                        h == self.size.1,
                        1 <= w,
                        1 <= h,
                        current_x as int == card_id as int % (w as int),
                        current_y as int == card_id as int / (w as int),
                        current_x < w,
                        current_y < h,
                        current_y + 1 <= y <= h,
                        result@.len() == y - (current_y + 1),
                        forall|k: int|
                            0 <= k < result@.len() ==> {
                                let idxs = scan_indices(
                                    w as int,
                                    h as int,
                                    card_id as int,
                                    Direction::Down,
                                );
                                (#[trigger] result@[k]).0 as int == idxs[k] && result@[k].1
                                    == self.cells@[idxs[k]]
                            },
                    decreases h - y,
                {
                    proof {
                        assert((y as int) * (w as int) + (current_x as int) < self.cells@.len())
                            by (nonlinear_arith)
                            requires
                                0 <= y as int,
                                y as int <= h as int - 1,
                                0 <= current_x as int,
                                current_x as int <= w as int - 1,
                                1 <= w as int,
                                self.cells@.len() == w as int * h as int,
                        ;
                    }
                    let idx = y * w + current_x;
                    result.push((idx, self.cells[idx]));
                    y = y + 1;
                }
            }
            Direction::Up => {
                let mut y = current_y;
                while y > 0
                    invariant
                        self.wf(),
                        card_id < self.cells@.len(),
                        n == self.cells@.len(),
                        w == self.size.0,
                        h == self.size.1,
                        1 <= w,
                        1 <= h,
                        current_x as int == card_id as int % (w as int),
                        current_y as int == card_id as int / (w as int),
                        current_x < w,
                        current_y < h,
                        y <= current_y,
                        result@.len() == current_y - y,
                        forall|k: int|
                            0 <= k < result@.len() ==> {
                                let idxs = scan_indices(
                                    w as int,
                                    h as int,
                                    card_id as int,
                                    Direction::Up,
                                );
                                (#[trigger] result@[k]).0 as int == idxs[k] && result@[k].1
                                    == self.cells@[idxs[k]]
                            },
                    decreases y,
                {
                    y = y - 1;
                    proof {
                        assert((y as int) * (w as int) + (current_x as int) < self.cells@.len())
                            by (nonlinear_arith)
                            requires
                                0 <= y as int,
                                y as int <= h as int - 1,
                                0 <= current_x as int,
                                current_x as int <= w as int - 1,
                                1 <= w as int,
                                self.cells@.len() == w as int * h as int,
                        ;
                    }
                    let idx = y * w + current_x;
                    result.push((idx, self.cells[idx]));
                }
            }
        }

        result
    }

    fn apply_direction(
        &mut self,
        id: usize,
        d: Direction,
        a0: u8,
        side: Side,
        gc: &Vec<(usize, Cell)>,
        Ghost(cells0): Ghost<Seq<Cell>>,
    )
        requires
            old(self).wf(),
            1 <= old(self).size.0,
            1 <= old(self).size.1,
            (id as int) < old(self).cells@.len(),
            cells0.len() == old(self).cells@.len(),
            scan_matches(
                gc@,
                cells0,
                old(self).size.0 as int,
                old(self).size.1 as int,
                id as int,
                d,
            ),
        ensures
            final(self).size == old(self).size,
            final(self).cells@.len() == old(self).cells@.len(),
            final(self).wf(),
            forall|j: int|
                0 <= j < old(self).cells@.len() ==> (#[trigger] final(self).cells@[j]).card == old(
                    self,
                ).cells@[j].card,
            forall|j: int|
                0 <= j < old(self).cells@.len() ==> (#[trigger] final(self).cells@[j]).owner == (
                if scan_flip_upto(
                    cells0,
                    scan_indices(old(self).size.0 as int, old(self).size.1 as int, id as int, d),
                    d,
                    a0 as int,
                    scan_indices(
                        old(self).size.0 as int,
                        old(self).size.1 as int,
                        id as int,
                        d,
                    ).len() as int,
                    j,
                ) {
                    Some(side)
                } else {
                    old(self).cells@[j].owner
                }),
    {
        let ghost w0: int = self.size.0 as int;
        let ghost h0: int = self.size.1 as int;
        let ghost idxs: Seq<int> = scan_indices(w0, h0, id as int, d);
        let ghost a0i: int = a0 as int;
        let ghost base: Seq<Cell> = self.cells@;

        proof {
            lemma_scan_shape(w0, h0, id as int, d);
        }

        let mut atk: i128 = a0 as i128;
        let mut k: usize = 0;
        while k < gc.len()
            invariant
                self.size == old(self).size,
                self.cells@.len() == base.len(),
                base == old(self).cells@,
                base.len() == cells0.len(),
                cells0.len() == w0 * h0,
                1 <= w0,
                1 <= h0,
                w0 == old(self).size.0 as int,
                h0 == old(self).size.1 as int,
                0 <= (id as int) < cells0.len(),
                idxs == scan_indices(w0, h0, id as int, d),
                a0i == a0 as int,
                scan_matches(gc@, cells0, w0, h0, id as int, d),
                k <= gc@.len(),
                open_prefix(cells0, idxs, k as int),
                atk as int == a0i - defense_sum(cells0, idxs, d, k as int),
                0 <= defense_sum(cells0, idxs, d, k as int) <= 255 * (k as int),
                forall|j: int|
                    0 <= j < base.len() ==> (#[trigger] self.cells@[j]).card == base[j].card,
                forall|j: int|
                    0 <= j < base.len() ==> (#[trigger] self.cells@[j]).owner == (
                    if scan_flip_upto(cells0, idxs, d, a0i, k as int, j) {
                        Some(side)
                    } else {
                        base[j].owner
                    }),
            ensures
                self.size == old(self).size,
                self.cells@.len() == base.len(),
                forall|j: int|
                    0 <= j < base.len() ==> (#[trigger] self.cells@[j]).card == base[j].card,
                forall|j: int|
                    0 <= j < base.len() ==> (#[trigger] self.cells@[j]).owner == (
                    if scan_flip_upto(cells0, idxs, d, a0i, idxs.len() as int, j) {
                        Some(side)
                    } else {
                        base[j].owner
                    }),
            decreases gc@.len() - k,
        {
            proof {
                lemma_scan_shape(w0, h0, id as int, d);
                assert(gc@[k as int].0 as int == idxs[k as int] && gc@[k as int].1 == cells0[idxs[k as int]]);
            }
            let idx = gc[k].0;
            let cellk = gc[k].1;
            match cellk.card {
                None => {
                    proof {
                        assert(cells0[idxs[k as int]].card is None);
                        assert forall|j: int| 0 <= j < base.len() implies scan_flip_upto(
                            cells0,
                            idxs,
                            d,
                            a0i,
                            idxs.len() as int,
                            j,
                        ) == scan_flip_upto(cells0, idxs, d, a0i, k as int, j) by {
                            if scan_flip_upto(cells0, idxs, d, a0i, idxs.len() as int, j) {
                                let k2 = choose|k2: int|
                                    0 <= k2 < idxs.len() as int && idxs[k2] == j
                                        && #[trigger] flips_at(cells0, idxs, d, a0i, k2);
                                if k2 >= k as int {
                                    assert(open_prefix(cells0, idxs, k2 + 1));
                                    assert(cells0[idxs[k as int]].card is Some);
                                }
                                assert(scan_flip_upto(cells0, idxs, d, a0i, k as int, j));
                            }
                            if scan_flip_upto(cells0, idxs, d, a0i, k as int, j) {
                                let k2 = choose|k2: int|
                                    0 <= k2 < k as int && idxs[k2] == j && #[trigger] flips_at(
                                        cells0,
                                        idxs,
                                        d,
                                        a0i,
                                        k2,
                                    );
                                assert(0 <= k2 < idxs.len() as int);
                                assert(scan_flip_upto(cells0, idxs, d, a0i, idxs.len() as int, j));
                            }
                        }
                    }
                    break;
                }
                Some(c) => {
                    let sub = attack_back_value(&c, d);
                    proof {
                        assert(cells0[idxs[k as int]].card == Some(c));
                        assert(defense_sum(cells0, idxs, d, k as int + 1) == defense_sum(
                            cells0,
                            idxs,
                            d,
                            k as int,
                        ) + attack_back(c, d));
                        assert(atk as int - (sub as int) >= -255 * (k as int) - 255);
                        assert(-255 * (k as int) - 255 >= -255 * (usize::MAX as int) - 255);
                    }
                    atk = atk - (sub as i128);
                    let ghost flip_here: bool = flips_at(cells0, idxs, d, a0i, k as int);
                    proof {
                        assert(open_prefix(cells0, idxs, k as int + 1)) by {
                            assert forall|i: int| 0 <= i < k as int + 1 implies (#[trigger] cells0[idxs[i]]).card
                                is Some by {
                                if i < k as int {
                                    assert(cells0[idxs[i]].card is Some);
                                }
                            }
                        };
                        assert(flip_here == (atk > 0));
                        assert(0 <= idxs[k as int] < cells0.len());
                        assert(idx as int == idxs[k as int]);
                    }
                    if atk > 0 {
                        self.change_side(idx, side);
                    }
                    proof {
                        let jk = idxs[k as int];
                        assert forall|j: int| 0 <= j < base.len() implies (#[trigger] self.cells@[j]).owner
                            == (if scan_flip_upto(cells0, idxs, d, a0i, k as int + 1, j) {
                            Some(side)
                        } else {
                            base[j].owner
                        }) by {
                            if scan_flip_upto(cells0, idxs, d, a0i, k as int + 1, j) {
                                let k2 = choose|k2: int|
                                    0 <= k2 < k as int + 1 && idxs[k2] == j && #[trigger] flips_at(
                                        cells0,
                                        idxs,
                                        d,
                                        a0i,
                                        k2,
                                    );
                                if k2 == k as int {
                                    assert(flip_here);
                                    assert(self.cells@[j].owner == Some(side));
                                } else {
                                    assert(scan_flip_upto(cells0, idxs, d, a0i, k as int, j));
                                    assert(self.cells@[j].owner == Some(side));
                                }
                            } else {
                                if scan_flip_upto(cells0, idxs, d, a0i, k as int, j) {
                                    let k2 = choose|k2: int|
                                        0 <= k2 < k as int && idxs[k2] == j && #[trigger] flips_at(
                                            cells0,
                                            idxs,
                                            d,
                                            a0i,
                                            k2,
                                        );
                                    assert(scan_flip_upto(cells0, idxs, d, a0i, k as int + 1, j));
                                }
                                if flip_here && j == jk {
                                    assert(flips_at(cells0, idxs, d, a0i, k as int));
                                    assert(scan_flip_upto(cells0, idxs, d, a0i, k as int + 1, j));
                                }
                                assert(self.cells@[j].owner == base[j].owner);
                            }
                        }
                    }
                    k = k + 1;
                }
            }
        }
    }

    /// Resolves the placement of the card at `new_card_id`: walks outward
    /// along each of the four directions and flips to the placed card's
    /// owner every reachable opposing cell whose defence leaves the running
    /// attack strictly positive. A target cell without a card or without an
    /// owner makes the call a no-op. Cards themselves never change.
    pub fn tick_turn(&mut self, new_card_id: usize)
        requires
            old(self).wf(),
            new_card_id < old(self).cells@.len(),
        ensures
            final(self).size == old(self).size,
            final(self).wf(),
            final(self).cells@ == resolved(
                old(self).cells@,
                old(self).size.0 as int,
                old(self).size.1 as int,
                new_card_id as int,
            ),
            forall|j: int|
                0 <= j < old(self).cells@.len() ==> (#[trigger] final(self).cells@[j]).card == old(
                    self,
                ).cells@[j].card,
            (old(self).cells@[new_card_id as int].card is None || old(
                self,
            ).cells@[new_card_id as int].owner is None) ==> final(self).cells@ == old(self).cells@,
            old(self).consistent() ==> final(self).consistent(),
    {
        let ghost w0: int = self.size.0 as int;
        let ghost h0: int = self.size.1 as int;
        let ghost id0: int = new_card_id as int;
        let ghost cells0: Seq<Cell> = self.cells@;

        let placed = self.cells[new_card_id];
        let new_card = match placed.card {
            None => {
                return ;
            },
            Some(c) => c,
        };
        let side = match placed.owner {
            None => {
                return ;
            },
            Some(s) => s,
        };

        proof {
            assert(1 <= w0 && 1 <= h0) by (nonlinear_arith)
                requires
                    cells0.len() == w0 * h0,
                    1 <= cells0.len(),
                    0 <= w0,
                    0 <= h0,
            ;
            lemma_scan_shape(w0, h0, id0, Direction::Up);
            lemma_scan_shape(w0, h0, id0, Direction::Right);
            lemma_scan_shape(w0, h0, id0, Direction::Down);
            lemma_scan_shape(w0, h0, id0, Direction::Left);
        }

        let up_cards = self.get_cards(new_card_id, Direction::Up);
        let right_cards = self.get_cards(new_card_id, Direction::Right);
        let down_cards = self.get_cards(new_card_id, Direction::Down);
        let left_cards = self.get_cards(new_card_id, Direction::Left);

        self.apply_direction(
            new_card_id,
            Direction::Up,
            new_card.attack.0,
            side,
            &up_cards,
            Ghost(cells0),
        );
        let ghost s1: Seq<Cell> = self.cells@;
        self.apply_direction(
            new_card_id,
            Direction::Right,
            new_card.attack.1,
            side,
            &right_cards,
            Ghost(cells0),
        );
        let ghost s2: Seq<Cell> = self.cells@;
        self.apply_direction(
            new_card_id,
            Direction::Down,
            new_card.attack.2,
            side,
            &down_cards,
            Ghost(cells0),
        );
        let ghost s3: Seq<Cell> = self.cells@;
        self.apply_direction(
            new_card_id,
            Direction::Left,
            new_card.attack.3,
            side,
            &left_cards,
            Ghost(cells0),
        );

        proof {
            let pc = cells0[id0].card->Some_0;
            assert(pc == new_card);
            assert(attack_toward(pc, Direction::Up) == new_card.attack.0 as int);
            assert(attack_toward(pc, Direction::Right) == new_card.attack.1 as int);
            assert(attack_toward(pc, Direction::Down) == new_card.attack.2 as int);
            assert(attack_toward(pc, Direction::Left) == new_card.attack.3 as int);
            assert forall|j: int| 0 <= j < cells0.len() implies self.cells@[j] == resolved(
                cells0,
                w0,
                h0,
                id0,
            )[j] by {
                assert(s1[j].card == cells0[j].card);
                assert(s2[j].card == s1[j].card);
                assert(s3[j].card == s2[j].card);
                assert(self.cells@[j].card == s3[j].card);
                assert(s1[j].owner == (if scan_flips_cell(cells0, w0, h0, id0, Direction::Up, j) {
                    Some(side)
                } else {
                    cells0[j].owner
                }));
                assert(s2[j].owner == (if scan_flips_cell(cells0, w0, h0, id0, Direction::Right, j) {
                    Some(side)
                } else {
                    s1[j].owner
                }));
                assert(s3[j].owner == (if scan_flips_cell(cells0, w0, h0, id0, Direction::Down, j) {
                    Some(side)
                } else {
                    s2[j].owner
                }));
                assert(self.cells@[j].owner == (if scan_flips_cell(
                    cells0,
                    w0,
                    h0,
                    id0,
                    Direction::Left,
                    j,
                ) {
                    Some(side)
                } else {
                    s3[j].owner
                }));
                if flips_cell(cells0, w0, h0, id0, j) {
                    assert(self.cells@[j].owner == Some(side));
                    assert(self.cells@[j] =~= (Cell {
                        card: cells0[j].card,
                        owner: Some(cells0[id0].owner->Some_0),
                    }));
                } else {
                    assert(self.cells@[j].owner == cells0[j].owner);
                    assert(self.cells@[j] =~= cells0[j]);
                }
            }
            assert(self.cells@ =~= resolved(cells0, w0, h0, id0));
            if cells_consistent(cells0) {
                assert forall|j: int|
                    0 <= j < self.cells@.len() implies ((#[trigger] self.cells@[j]).card is Some
                    <==> self.cells@[j].owner is Some) by {
                    if flips_cell(cells0, w0, h0, id0, j) {
                        lemma_flip_hits_occupied(cells0, w0, h0, id0, j);
                    } else {
                        assert(self.cells@[j] == cells0[j]);
                    }
                }
            }
        }
    }
}

} // verus!
