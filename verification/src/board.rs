//! Board model: cells, capacities, board sizing, and orb-count sums.

use vstd::prelude::*;

verus! {

/// One grid cell: an orb count and, when occupied, the palette index of the
/// owning player's color.
#[derive(Clone, Copy, Debug)]
pub struct Cell {
    pub orbs: u32,
    pub owner: Option<u8>,
}

/// Mathematical model of a cell: unbounded orb count, owner as an integer
/// palette index.
pub ghost struct CellM {
    pub orbs: int,
    pub owner: Option<int>,
}

/// Mathematical model of a board: dimensions and a row-major cell sequence.
pub ghost struct BoardM {
    pub rows: int,
    pub cols: int,
    pub cells: Seq<CellM>,
}

/// Number of colors in the fixed palette.
pub const PALETTE_SIZE: u8 = 8;

/// Largest side length a board may have; keeps all index arithmetic in range.
pub const MAX_DIM: usize = 4096;

pub open spec fn cell_m(c: Cell) -> CellM {
    CellM {
        orbs: c.orbs as int,
        owner: match c.owner {
            Some(k) => Some(k as int),
            None => None,
        },
    }
}

/// A well-formed cell: nonnegative orbs, owner present exactly when orbs are,
/// and the owner drawn from the palette.
pub open spec fn cell_wf(c: CellM) -> bool {
    &&& 0 <= c.orbs
    &&& (c.owner is None <==> c.orbs == 0)
    &&& (c.owner matches Some(k) ==> 0 <= k < PALETTE_SIZE)
}

impl BoardM {
    pub open spec fn idx(self, r: int, c: int) -> int {
        r * self.cols + c
    }

    pub open spec fn in_bounds(self, r: int, c: int) -> bool {
        0 <= r < self.rows && 0 <= c < self.cols
    }

    pub open spec fn at(self, r: int, c: int) -> CellM {
        self.cells[self.idx(r, c)]
    }

    pub open spec fn wf(self) -> bool {
        &&& 1 <= self.rows <= MAX_DIM
        &&& 1 <= self.cols <= MAX_DIM
        &&& self.cells.len() == self.rows * self.cols
        &&& forall|i: int| 0 <= i < self.cells.len() ==> cell_wf(#[trigger] self.cells[i])
    }
}

/// The flat index of an in-bounds coordinate is itself in range.
pub proof fn lemma_idx_in_range(b: BoardM, r: int, c: int)
    requires
        b.wf(),
        b.in_bounds(r, c),
    ensures
        0 <= b.idx(r, c) < b.cells.len(),
        b.idx(r, c) == r * b.cols + c,
        b.rows * b.cols <= MAX_DIM * MAX_DIM,
{
    assert(b.rows * b.cols <= MAX_DIM * MAX_DIM) by (nonlinear_arith)
        requires
            1 <= b.rows <= MAX_DIM,
            1 <= b.cols <= MAX_DIM,
        ;
    assert(r * b.cols + c < b.rows * b.cols) by (nonlinear_arith)
        requires
            0 <= r < b.rows,
            0 <= c < b.cols,
        ;
    assert(0 <= r * b.cols) by (nonlinear_arith)
        requires
            0 <= r,
            0 <= b.cols,
        ;
}

/// Capacity of the cell at `(r, c)` on a `rows x cols` board: 2 at a corner,
/// 3 on an edge that is not a corner, 4 in the interior.
pub open spec fn spec_capacity(r: int, c: int, rows: int, cols: int) -> int {
    if is_corner(r, c, rows, cols) {
        2
    } else if is_edge(r, c, rows, cols) {
        3
    } else {
        4
    }
}

pub open spec fn is_corner(r: int, c: int, rows: int, cols: int) -> bool {
    (r == 0 || r == rows - 1) && (c == 0 || c == cols - 1)
}

pub open spec fn is_edge(r: int, c: int, rows: int, cols: int) -> bool {
    r == 0 || r == rows - 1 || c == 0 || c == cols - 1
}

/// Per-cell capacity; callers must bounds-check the coordinate first.
/// Capacity is 2 exactly at the four corners, 3 exactly on non-corner edge
/// cells, and 4 everywhere else.
pub fn get_max_capacity(row: usize, col: usize, rows: usize, cols: usize) -> (r: u32)
    requires
        row < rows,
        col < cols,
    ensures
        r == spec_capacity(row as int, col as int, rows as int, cols as int),
        2 <= r <= 4,
        r == 2 <==> is_corner(row as int, col as int, rows as int, cols as int),
        r == 3 <==> (is_edge(row as int, col as int, rows as int, cols as int)
            && !is_corner(row as int, col as int, rows as int, cols as int)),
{
    let is_corner = (row == 0 || row == rows - 1) && (col == 0 || col == cols - 1);
    let is_edge = row == 0 || row == rows - 1 || col == 0 || col == cols - 1;
    if is_corner {
        2
    } else if is_edge {
        3
    } else {
        4
    }
}

/// Board dimensions as a function of the declared player cap: at most 2
/// players get 9x6, 3 or 4 get 12x10, anything larger gets 15x15.
pub open spec fn spec_board_size(max_players: int) -> (int, int) {
    if max_players <= 2 {
        (9, 6)
    } else if max_players <= 4 {
        (12, 10)
    } else {
        (15, 15)
    }
}

/// Board size for a declared maximum player count; out-of-range counts fall
/// to the nearest bracket.
pub fn get_board_size(max_players: u32) -> (r: (usize, usize))
    ensures
        (r.0 as int, r.1 as int) == spec_board_size(max_players as int),
        1 <= r.0 <= 15,
        1 <= r.1 <= 15,
{
    match max_players {
        2 => (9, 6),
        3 | 4 => (12, 10),
        5 => (15, 15),
        _ => {
            if max_players <= 2 {
                (9, 6)
            } else if max_players <= 4 {
                (12, 10)
            } else {
                (15, 15)
            }
        },
    }
}

/// A board held as a row-major flat vector of cells.
#[derive(Debug)]
pub struct Board {
    pub rows: usize,
    pub cols: usize,
    pub cells: Vec<Cell>,
}

impl View for Board {
    type V = BoardM;

    open spec fn view(&self) -> BoardM {
        BoardM {
            rows: self.rows as int,
            cols: self.cols as int,
            cells: self.cells@.map(|i: int, c: Cell| cell_m(c)),
        }
    }
}

impl Board {
    pub open spec fn wf(&self) -> bool {
        self@.wf()
    }

    /// Read the cell at an in-bounds coordinate.
    pub fn get(&self, row: usize, col: usize) -> (r: Cell)
        requires
            self.wf(),
            self@.in_bounds(row as int, col as int),
        ensures
            cell_m(r) == self@.at(row as int, col as int),
    {
        proof {
            lemma_idx_in_range(self@, row as int, col as int);
        }
        let i = row * self.cols + col;
        self.cells[i]
    }

    /// Write the cell at an in-bounds coordinate.
    pub fn set(&mut self, row: usize, col: usize, cell: Cell) -> (r: ())
        requires
            old(self).wf(),
            old(self)@.in_bounds(row as int, col as int),
        ensures
            final(self)@.rows == old(self)@.rows,
            final(self)@.cols == old(self)@.cols,
            final(self)@.cells == old(self)@.cells.update(
                old(self)@.idx(row as int, col as int),
                cell_m(cell),
            ),
    {
        proof {
            lemma_idx_in_range(self@, row as int, col as int);
        }
        let i = row * self.cols + col;
        self.cells[i] = cell;
        proof {
            assert(final(self)@.cells =~= old(self)@.cells.update(
                old(self)@.idx(row as int, col as int),
                cell_m(cell),
            ));
        }
    }
}

/// An empty board of the given dimensions: every cell has no orbs and no
/// owner.
pub fn create_empty_board(rows: usize, cols: usize) -> (b: Board)
    requires
        1 <= rows <= MAX_DIM,
        1 <= cols <= MAX_DIM,
    ensures
        b.wf(),
        b@.rows == rows,
        b@.cols == cols,
        forall|i: int| 0 <= i < b@.cells.len() ==> #[trigger] b@.cells[i] == (CellM {
            orbs: 0,
            owner: None::<int>,
        }),
{
    proof {
        assert(1 * 1 <= rows * cols && rows * cols <= MAX_DIM * MAX_DIM) by (nonlinear_arith)
            requires
                1 <= rows <= MAX_DIM,
                1 <= cols <= MAX_DIM,
            ;
    }
    let n = rows * cols;
    let mut cells: Vec<Cell> = Vec::new();
    let mut i: usize = 0;
    while i < n
        invariant
            i <= n,
            cells@.len() == i,
            forall|j: int| 0 <= j < i ==> #[trigger] cells@[j] == (Cell { orbs: 0u32, owner: None::<u8> }),
        decreases n - i,
    {
        cells.push(Cell { orbs: 0, owner: None });
        i = i + 1;
    }
    Board { rows, cols, cells }
}

/// Sum of the orb counts of `cells[i..]`.
pub open spec fn orbs_from(cells: Seq<CellM>, i: int) -> int
    decreases cells.len() - i,
{
    if i < 0 || i >= cells.len() {
        0
    } else {
        cells[i].orbs + orbs_from(cells, i + 1)
    }
}

/// Total orbs on a board.
pub open spec fn total_orbs(b: BoardM) -> int {
    orbs_from(b.cells, 0)
}

/// Sum of the orb counts of cells of `cells[i..]` owned by color `col`.
pub open spec fn color_orbs_from(cells: Seq<CellM>, col: int, i: int) -> int
    decreases cells.len() - i,
{
    if i < 0 || i >= cells.len() {
        0
    } else {
        (if cells[i].owner == Some(col) {
            cells[i].orbs
        } else {
            0
        }) + color_orbs_from(cells, col, i + 1)
    }
}

/// Orbs held by color `col` on a board.
pub open spec fn color_orbs(b: BoardM, col: int) -> int {
    color_orbs_from(b.cells, col, 0)
}

/// A sum over well-formed cells is nonnegative.
pub proof fn lemma_orbs_from_nonneg(cells: Seq<CellM>, i: int)
    requires
        forall|j: int| 0 <= j < cells.len() ==> #[trigger] cells[j].orbs >= 0,
    ensures
        orbs_from(cells, i) >= 0,
    decreases cells.len() - i,
{
    if 0 <= i < cells.len() {
        lemma_orbs_from_nonneg(cells, i + 1);
    }
}

/// Updating one cell changes the total by the difference in that cell's orbs.
pub proof fn lemma_orbs_from_update(cells: Seq<CellM>, j: int, c: CellM, i: int)
    requires
        0 <= j < cells.len(),
        0 <= i <= j,
    ensures
        orbs_from(cells.update(j, c), i) == orbs_from(cells, i) - cells[j].orbs + c.orbs,
    decreases cells.len() - i,
{
    let upd = cells.update(j, c);
    if i < j {
        lemma_orbs_from_update(cells, j, c, i + 1);
    } else {
        // i == j
        assert(orbs_from(upd, j + 1) == orbs_from(cells, j + 1)) by {
            lemma_orbs_from_agree(upd, cells, j + 1);
        }
    }
}

/// Sums from `i` agree on sequences that agree from `i` on.
pub proof fn lemma_orbs_from_agree(a: Seq<CellM>, b: Seq<CellM>, i: int)
    requires
        a.len() == b.len(),
        forall|j: int| i <= j < a.len() ==> a[j] == b[j],
    ensures
        orbs_from(a, i) == orbs_from(b, i),
    decreases a.len() - i,
{
    if 0 <= i < a.len() {
        lemma_orbs_from_agree(a, b, i + 1);
    }
}

/// Each well-formed cell's orbs are at most the total from any point at or
/// before it.
pub proof fn lemma_cell_le_total(cells: Seq<CellM>, j: int, i: int)
    requires
        forall|k: int| 0 <= k < cells.len() ==> #[trigger] cells[k].orbs >= 0,
        0 <= j < cells.len(),
        0 <= i <= j,
    ensures
        cells[j].orbs <= orbs_from(cells, i),
    decreases cells.len() - i,
{
    if i < j {
        lemma_cell_le_total(cells, j, i + 1);
    } else {
        lemma_orbs_from_nonneg(cells, i + 1);
    }
}

/// A sum of all-empty cells is zero.
pub proof fn lemma_orbs_from_zero(cells: Seq<CellM>, i: int)
    requires
        forall|j: int| 0 <= j < cells.len() ==> #[trigger] cells[j].orbs == 0,
    ensures
        orbs_from(cells, i) == 0,
    decreases cells.len() - i,
{
    if 0 <= i < cells.len() {
        lemma_orbs_from_zero(cells, i + 1);
    }
}

/// Count the orbs owned by `color` on the board.
pub fn count_color_orbs(b: &Board, color: u8) -> (r: u64)
    requires
        b.wf(),
    ensures
        r == color_orbs(b@, color as int),
{
    let ghost cells = b@.cells;
    let n = b.cells.len();
    let mut acc: u64 = 0;
    let mut i: usize = 0;
    proof {
        assert(forall|j: int| 0 <= j < cells.len() ==> 0 <= #[trigger] cells[j].orbs <= u32::MAX);
        assert(b@.rows * b@.cols <= MAX_DIM * MAX_DIM) by (nonlinear_arith)
            requires
                1 <= b@.rows <= MAX_DIM,
                1 <= b@.cols <= MAX_DIM,
            ;
        lemma_color_orbs_bound(cells, color as int, 0);
    }
    while i < n
        invariant
            i <= n,
            n == b.cells.len(),
            n <= MAX_DIM * MAX_DIM,
            b.wf(),
            cells == b@.cells,
            forall|j: int| 0 <= j < cells.len() ==> 0 <= #[trigger] cells[j].orbs <= u32::MAX,
            acc + color_orbs_from(cells, color as int, i as int) == color_orbs_from(
                cells,
                color as int,
                0,
            ),
            acc <= i * (u32::MAX as int),
        decreases n - i,
    {
        proof {
            lemma_color_orbs_bound(cells, color as int, i + 1);
        }
        let cell = b.cells[i];
        if cell.owner == Some(color) {
            acc = acc + cell.orbs as u64;
        }
        i = i + 1;
    }
    acc
}

/// A color's orbs from `i` are bounded by the number of remaining cells times
/// the largest cell count, and are nonnegative.
pub proof fn lemma_color_orbs_bound(cells: Seq<CellM>, col: int, i: int)
    requires
        forall|j: int| 0 <= j < cells.len() ==> 0 <= #[trigger] cells[j].orbs <= u32::MAX,
        0 <= i <= cells.len(),
    ensures
        0 <= color_orbs_from(cells, col, i) <= (cells.len() - i) * (u32::MAX as int),
    decreases cells.len() - i,
{
    if i >= cells.len() {
    } else {
        lemma_color_orbs_bound(cells, col, i + 1);
        assert((cells.len() - i) * (u32::MAX as int) == (cells.len() - i - 1) * (u32::MAX as int)
            + u32::MAX) by (nonlinear_arith);
    }
}

/// Count all orbs on the board.
pub fn count_total_orbs(b: &Board) -> (r: u64)
    requires
        b.wf(),
    ensures
        r == total_orbs(b@),
{
    let ghost cells = b@.cells;
    let n = b.cells.len();
    let mut acc: u64 = 0;
    let mut i: usize = 0;
    proof {
        assert(forall|j: int| 0 <= j < cells.len() ==> 0 <= #[trigger] cells[j].orbs <= u32::MAX);
        assert(b@.rows * b@.cols <= MAX_DIM * MAX_DIM) by (nonlinear_arith)
            requires
                1 <= b@.rows <= MAX_DIM,
                1 <= b@.cols <= MAX_DIM,
            ;
        lemma_total_orbs_bound(cells, 0);
    }
    while i < n
        invariant
            i <= n,
            n == b.cells.len(),
            n <= MAX_DIM * MAX_DIM,
            b.wf(),
            cells == b@.cells,
            forall|j: int| 0 <= j < cells.len() ==> 0 <= #[trigger] cells[j].orbs <= u32::MAX,
            acc + orbs_from(cells, i as int) == orbs_from(cells, 0),
            acc <= i * (u32::MAX as int),
        decreases n - i,
    {
        proof {
            lemma_total_orbs_bound(cells, i + 1);
        }
        let cell = b.cells[i];
        acc = acc + cell.orbs as u64;
        i = i + 1;
    }
    acc
}

/// The total from `i` is bounded by the number of remaining cells times the
/// largest cell count, and is nonnegative.
pub proof fn lemma_total_orbs_bound(cells: Seq<CellM>, i: int)
    requires
        forall|j: int| 0 <= j < cells.len() ==> 0 <= #[trigger] cells[j].orbs <= u32::MAX,
        0 <= i <= cells.len(),
    ensures
        0 <= orbs_from(cells, i) <= (cells.len() - i) * (u32::MAX as int),
    decreases cells.len() - i,
{
    if i >= cells.len() {
    } else {
        lemma_total_orbs_bound(cells, i + 1);
        assert((cells.len() - i) * (u32::MAX as int) == (cells.len() - i - 1) * (u32::MAX as int)
            + u32::MAX) by (nonlinear_arith);
    }
}

} // verus!
