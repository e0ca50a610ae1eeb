//! Chain-reaction engine: placing an orb and running the cascade of
//! explosions to a stable board.
//!
//! One scan pass visits the cells in row-major order and explodes, in place,
//! every cell found at or over capacity; an explosion can therefore feed
//! cells visited later in the same pass. Passes repeat until one of them
//! explodes nothing. The cascade has no closed-form termination bound, so the
//! engine runs at most `PASS_LIMIT` passes and reports a board that still has
//! an over-capacity cell after that many passes as a failure.

use vstd::prelude::*;

use crate::board::Board;
use crate::board::BoardM;
use crate::board::Cell;
use crate::board::CellM;
use crate::board::MAX_DIM;
use crate::board::PALETTE_SIZE;
use crate::board::cell_wf;
use crate::board::lemma_cell_le_total;
use crate::board::lemma_idx_in_range;
use crate::board::lemma_orbs_from_update;
use crate::board::spec_capacity;
use crate::board::total_orbs;

verus! {

/// Largest number of scan passes one resolution may take.
pub const PASS_LIMIT: u64 = 100000;

/// The cell at `(r, c)` is in bounds and at or over its capacity.
pub open spec fn over_cap(b: BoardM, r: int, c: int) -> bool {
    b.in_bounds(r, c) && b.at(r, c).orbs >= spec_capacity(r, c, b.rows, b.cols)
}

/// Some cell of the board is at or over its capacity.
pub open spec fn has_over(b: BoardM) -> bool {
    exists|r: int, c: int| over_cap(b, r, c)
}

/// Add one orb with owner `o` at `(r, c)` if that is in bounds; out-of-bounds
/// positions discard the orb.
pub open spec fn bump(b: BoardM, r: int, c: int, o: Option<int>) -> BoardM {
    if b.in_bounds(r, c) {
        BoardM {
            cells: b.cells.update(
                b.idx(r, c),
                CellM { orbs: b.at(r, c).orbs + 1, owner: o },
            ),
            ..b
        }
    } else {
        b
    }
}

/// Explode the cell at `(r, c)`: it loses all orbs and its owner, and each
/// in-bounds orthogonal neighbor gains one orb owned by the exploding cell's
/// pre-explosion owner, visited in the order up, down, left, right.
pub open spec fn explode(b: BoardM, r: int, c: int) -> BoardM {
    let o = b.at(r, c).owner;
    let bz = BoardM {
        cells: b.cells.update(b.idx(r, c), CellM { orbs: 0, owner: None }),
        ..b
    };
    bump(bump(bump(bump(bz, r - 1, c, o), r + 1, c, o), r, c - 1, o), r, c + 1, o)
}

/// One scan from position `(r, c)` to the end of the board, exploding in
/// place; returns the board after the scan and whether anything exploded.
pub open spec fn scan_from(b: BoardM, r: int, c: int) -> (BoardM, bool)
    decreases b.rows - r, b.cols - c + 1,
{
    if r < 0 || r >= b.rows {
        (b, false)
    } else if c < 0 || c >= b.cols {
        scan_from(b, r + 1, 0)
    } else if over_cap(b, r, c) {
        let rest = scan_from(explode(b, r, c), r, c + 1);
        (rest.0, true)
    } else {
        scan_from(b, r, c + 1)
    }
}

/// One full scan pass over the board.
pub open spec fn pass(b: BoardM) -> BoardM {
    scan_from(b, 0, 0).0
}

/// `k` scan passes over the board.
pub open spec fn iter_pass(b: BoardM, k: nat) -> BoardM
    decreases k,
{
    if k == 0 {
        b
    } else {
        iter_pass(pass(b), (k - 1) as nat)
    }
}

/// The cascade: repeat passes until no cell is over capacity, giving up after
/// `fuel` passes. This is the functional specification `resolve` is proved
/// against.
pub open spec fn cascade(b: BoardM, fuel: nat) -> Option<BoardM>
    decreases fuel,
{
    if !has_over(b) {
        Some(b)
    } else if fuel == 0 {
        None
    } else {
        cascade(pass(b), (fuel - 1) as nat)
    }
}

/// Place one orb of `color` at the in-bounds position `(r, c)`.
pub open spec fn place(b: BoardM, r: int, c: int, color: int) -> BoardM {
    BoardM {
        cells: b.cells.update(
            b.idx(r, c),
            CellM { orbs: b.at(r, c).orbs + 1, owner: Some(color) },
        ),
        ..b
    }
}

/// Position `(r2, c2)` is at or after `(r, c)` in row-major order.
pub open spec fn pos_at_or_after(r: int, c: int, r2: int, c2: int) -> bool {
    r2 > r || (r2 == r && c2 >= c)
}

/// A scan from `(r, c)` fires exactly when some position at or after it is
/// over capacity in the board the scan started from.
pub proof fn lemma_scan_fired(b: BoardM, r: int, c: int)
    requires
        0 <= r,
        0 <= c,
    ensures
        scan_from(b, r, c).1 <==> exists|r2: int, c2: int|
            pos_at_or_after(r, c, r2, c2) && over_cap(b, r2, c2),
    decreases b.rows - r, b.cols - c + 1,
{
    if r >= b.rows {
        assert forall|r2: int, c2: int|
            pos_at_or_after(r, c, r2, c2) implies !over_cap(b, r2, c2) by {}
    } else if c >= b.cols {
        lemma_scan_fired(b, r + 1, 0);
        if scan_from(b, r, c).1 {
            let (r2, c2) = choose|r2: int, c2: int|
                pos_at_or_after(r + 1, 0, r2, c2) && over_cap(b, r2, c2);
            assert(pos_at_or_after(r, c, r2, c2) && over_cap(b, r2, c2));
        }
    } else if over_cap(b, r, c) {
        assert(pos_at_or_after(r, c, r, c) && over_cap(b, r, c));
    } else {
        lemma_scan_fired(b, r, c + 1);
        if scan_from(b, r, c).1 {
            let (r2, c2) = choose|r2: int, c2: int|
                pos_at_or_after(r, c + 1, r2, c2) && over_cap(b, r2, c2);
            assert(pos_at_or_after(r, c, r2, c2) && over_cap(b, r2, c2));
        }
    }
}

/// A scan that fires nothing leaves the board unchanged.
pub proof fn lemma_scan_noop(b: BoardM, r: int, c: int)
    requires
        !scan_from(b, r, c).1,
    ensures
        scan_from(b, r, c).0 == b,
    decreases b.rows - r, b.cols - c + 1,
{
    if r < 0 || r >= b.rows {
    } else if c < 0 || c >= b.cols {
        lemma_scan_noop(b, r + 1, 0);
    } else if over_cap(b, r, c) {
    } else {
        lemma_scan_noop(b, r, c + 1);
    }
}

/// A full pass fires exactly when the board has an over-capacity cell, and a
/// pass that fires nothing is the identity.
pub proof fn lemma_pass_fired(b: BoardM)
    ensures
        scan_from(b, 0, 0).1 <==> has_over(b),
        !has_over(b) ==> pass(b) == b,
{
    lemma_scan_fired(b, 0, 0);
    if scan_from(b, 0, 0).1 {
        let (r2, c2) = choose|r2: int, c2: int|
            pos_at_or_after(0, 0, r2, c2) && over_cap(b, r2, c2);
        assert(over_cap(b, r2, c2));
    }
    if has_over(b) {
        let (r2, c2) = choose|r2: int, c2: int| over_cap(b, r2, c2);
        assert(pos_at_or_after(0, 0, r2, c2) && over_cap(b, r2, c2));
    }
    if !scan_from(b, 0, 0).1 {
        lemma_scan_noop(b, 0, 0);
    }
}

/// One more pass on the iterated board is one more iteration.
pub proof fn lemma_iter_pass_snoc(b: BoardM, k: nat)
    ensures
        iter_pass(b, (k + 1) as nat) == pass(iter_pass(b, k)),
    decreases k,
{
    if k == 0 {
        assert(iter_pass(b, 1) == iter_pass(pass(b), 0));
        assert(iter_pass(b, 0) == b);
    } else {
        lemma_iter_pass_snoc(pass(b), (k - 1) as nat);
        assert(iter_pass(b, (k + 1) as nat) == iter_pass(pass(b), k));
        assert(iter_pass(b, k) == iter_pass(pass(b), (k - 1) as nat));
    }
}

/// If every board along a `k`-pass trace is unstable, the cascade with fuel
/// `k` lands exactly on the `k`-th iterate: it succeeds if that iterate is
/// stable and gives up otherwise.
pub proof fn lemma_cascade_trace(b: BoardM, k: nat)
    requires
        forall|j: nat| j < k ==> has_over(#[trigger] iter_pass(b, j)),
    ensures
        cascade(b, k) == (if has_over(iter_pass(b, k)) {
            None::<BoardM>
        } else {
            Some(iter_pass(b, k))
        }),
    decreases k,
{
    assert(iter_pass(b, 0) == b);
    if k == 0 {
    } else {
        assert(has_over(b));
        assert forall|j: nat| j < (k - 1) as nat implies has_over(
            #[trigger] iter_pass(pass(b), j),
        ) by {
            assert(iter_pass(b, (j + 1) as nat) == iter_pass(pass(b), j));
            assert(has_over(iter_pass(b, (j + 1) as nat)));
        }
        lemma_cascade_trace(pass(b), (k - 1) as nat);
        assert(iter_pass(b, k) == iter_pass(pass(b), (k - 1) as nat));
    }
}

/// More fuel never changes a cascade that already settled.
pub proof fn lemma_cascade_mono(b: BoardM, f1: nat, f2: nat)
    requires
        cascade(b, f1) is Some,
        f1 <= f2,
    ensures
        cascade(b, f2) == cascade(b, f1),
    decreases f1,
{
    if !has_over(b) {
    } else {
        lemma_cascade_mono(pass(b), (f1 - 1) as nat, (f2 - 1) as nat);
    }
}

/// The cascade is deterministic: any two fuel budgets that both settle give
/// the same board. Resolution is therefore a function of the input board and
/// placement alone, independent of call history.
pub proof fn lemma_resolve_deterministic(b: BoardM, f1: nat, f2: nat)
    requires
        cascade(b, f1) is Some,
        cascade(b, f2) is Some,
    ensures
        cascade(b, f1) == cascade(b, f2),
{
    if f1 <= f2 {
        lemma_cascade_mono(b, f1, f2);
    } else {
        lemma_cascade_mono(b, f2, f1);
    }
}

/// A bump preserves well-formedness and dimensions and adds one orb when the
/// position is in bounds.
proof fn lemma_bump_bounds(b: BoardM, r: int, c: int, o: Option<int>)
    requires
        1 <= b.rows <= MAX_DIM,
        1 <= b.cols <= MAX_DIM,
        b.cells.len() == b.rows * b.cols,
        forall|j: int| 0 <= j < b.cells.len() ==> cell_wf(#[trigger] b.cells[j]),
        o matches Some(k) ==> 0 <= k < PALETTE_SIZE,
        o is Some,
    ensures
        bump(b, r, c, o).rows == b.rows,
        bump(b, r, c, o).cols == b.cols,
        bump(b, r, c, o).cells.len() == b.cells.len(),
        forall|j: int|
            0 <= j < b.cells.len() ==> cell_wf(#[trigger] bump(b, r, c, o).cells[j]),
        total_orbs(bump(b, r, c, o)) == total_orbs(b) + (if b.in_bounds(r, c) {
            1int
        } else {
            0int
        }),
{
    if b.in_bounds(r, c) {
        lemma_idx_in_range(b, r, c);
        let i = b.idx(r, c);
        lemma_orbs_from_update(b.cells, i, bump(b, r, c, o).cells[i], 0);
        assert(cell_wf(b.cells[i]));
    }
}

/// How many of a cell's four orthogonal neighbors lie on the board.
pub open spec fn in_bounds_neighbors(b: BoardM, r: int, c: int) -> int {
    (if b.in_bounds(r - 1, c) {
        1int
    } else {
        0int
    }) + (if b.in_bounds(r + 1, c) {
        1int
    } else {
        0int
    }) + (if b.in_bounds(r, c - 1) {
        1int
    } else {
        0int
    }) + (if b.in_bounds(r, c + 1) {
        1int
    } else {
        0int
    })
}

/// Exact orb accounting for one explosion: the cell loses all its orbs and
/// each in-bounds neighbor gains one, so the total changes by the neighbor
/// count minus the fired orbs — never an increase, since a cell never has
/// more in-bounds neighbors than capacity. On boards of at least two rows
/// and two columns the neighbor count equals the capacity exactly, so there
/// the total strictly decreases precisely when the cell fired holding more
/// orbs than its capacity; the shortfall of capacity below four is the
/// boundary's discarded overflow, which is what bounds the cascade.
pub proof fn lemma_explode_bounds(b: BoardM, r: int, c: int)
    requires
        b.wf(),
        over_cap(b, r, c),
    ensures
        explode(b, r, c).rows == b.rows,
        explode(b, r, c).cols == b.cols,
        explode(b, r, c).wf(),
        total_orbs(explode(b, r, c)) == total_orbs(b) - b.at(r, c).orbs + in_bounds_neighbors(
            b,
            r,
            c,
        ),
        in_bounds_neighbors(b, r, c) <= spec_capacity(r, c, b.rows, b.cols),
        total_orbs(explode(b, r, c)) <= total_orbs(b),
        b.rows >= 2 && b.cols >= 2 ==> in_bounds_neighbors(b, r, c) == spec_capacity(
            r,
            c,
            b.rows,
            b.cols,
        ),
{
    lemma_idx_in_range(b, r, c);
    let i = b.idx(r, c);
    let cap = spec_capacity(r, c, b.rows, b.cols);
    let orbs = b.at(r, c).orbs;
    assert(cell_wf(b.cells[i]));
    assert(orbs >= cap >= 2);
    let o = b.at(r, c).owner;
    let bz = BoardM {
        cells: b.cells.update(i, CellM { orbs: 0, owner: None }),
        ..b
    };
    lemma_orbs_from_update(b.cells, i, CellM { orbs: 0, owner: None }, 0);
    assert(total_orbs(bz) == total_orbs(b) - orbs);
    assert(forall|j: int| 0 <= j < bz.cells.len() ==> cell_wf(#[trigger] bz.cells[j]));
    let b1 = bump(bz, r - 1, c, o);
    let b2 = bump(b1, r + 1, c, o);
    let b3 = bump(b2, r, c - 1, o);
    let b4 = bump(b3, r, c + 1, o);
    lemma_bump_bounds(bz, r - 1, c, o);
    lemma_bump_bounds(b1, r + 1, c, o);
    lemma_bump_bounds(b2, r, c - 1, o);
    lemma_bump_bounds(b3, r, c + 1, o);
    let nb = (if b.in_bounds(r - 1, c) {
        1int
    } else {
        0int
    }) + (if b.in_bounds(r + 1, c) {
        1int
    } else {
        0int
    }) + (if b.in_bounds(r, c - 1) {
        1int
    } else {
        0int
    }) + (if b.in_bounds(r, c + 1) {
        1int
    } else {
        0int
    });
    assert(total_orbs(b4) == total_orbs(b) - orbs + nb);
    assert(nb <= cap);
}

/// A scan pass preserves well-formedness and dimensions and never increases
/// the total.
proof fn lemma_scan_bounds(b: BoardM, r: int, c: int)
    requires
        b.wf(),
    ensures
        scan_from(b, r, c).0.rows == b.rows,
        scan_from(b, r, c).0.cols == b.cols,
        scan_from(b, r, c).0.wf(),
        total_orbs(scan_from(b, r, c).0) <= total_orbs(b),
    decreases b.rows - r, b.cols - c + 1,
{
    if r < 0 || r >= b.rows {
    } else if c < 0 || c >= b.cols {
        lemma_scan_bounds(b, r + 1, 0);
    } else if over_cap(b, r, c) {
        lemma_explode_bounds(b, r, c);
        lemma_scan_bounds(explode(b, r, c), r, c + 1);
    } else {
        lemma_scan_bounds(b, r, c + 1);
    }
}

/// A settled cascade preserves well-formedness and dimensions and never
/// increases the total.
pub proof fn lemma_cascade_bounds(b: BoardM, f: nat, r: BoardM)
    requires
        b.wf(),
        cascade(b, f) == Some(r),
    ensures
        r.rows == b.rows,
        r.cols == b.cols,
        r.wf(),
        total_orbs(r) <= total_orbs(b),
    decreases f,
{
    if !has_over(b) {
    } else {
        lemma_scan_bounds(b, 0, 0);
        lemma_cascade_bounds(pass(b), (f - 1) as nat, r);
    }
}

/// Resolving one placement grows the total of orbs on the board by at most
/// the one orb placed; any shortfall is lost at explosions, never created.
pub proof fn lemma_resolution_total(b: BoardM, row: int, col: int, color: int, f: nat, r: BoardM)
    requires
        b.wf(),
        b.in_bounds(row, col),
        0 <= color < PALETTE_SIZE,
        cascade(place(b, row, col, color), f) == Some(r),
    ensures
        total_orbs(r) <= total_orbs(b) + 1,
{
    lemma_idx_in_range(b, row, col);
    let i = b.idx(row, col);
    let placed = place(b, row, col, color);
    assert(cell_wf(b.cells[i]));
    lemma_orbs_from_update(b.cells, i, placed.cells[i], 0);
    assert(total_orbs(placed) == total_orbs(b) + 1);
    assert forall|j: int| 0 <= j < placed.cells.len() implies cell_wf(
        #[trigger] placed.cells[j],
    ) by {
        assert(cell_wf(b.cells[j]));
    }
    lemma_cascade_bounds(placed, f, r);
}

/// Add one orb owned by `o` to the in-bounds cell at `(r, c)`.
fn bump_cell(b: &mut Board, row: usize, col: usize, o: Option<u8>)
    requires
        old(b).wf(),
        old(b)@.in_bounds(row as int, col as int),
        (o matches Some(k) ==> k < PALETTE_SIZE),
        o is Some,
        total_orbs(old(b)@) + 1 <= u32::MAX,
    ensures
        final(b)@ == bump(old(b)@, row as int, col as int, (match o {
            Some(k) => Some(k as int),
            None => None,
        })),
        final(b).wf(),
        final(b)@.rows == old(b)@.rows,
        final(b)@.cols == old(b)@.cols,
        total_orbs(final(b)@) == total_orbs(old(b)@) + 1,
{
    let ghost b0 = b@;
    proof {
        lemma_idx_in_range(b@, row as int, col as int);
        lemma_cell_le_total(b@.cells, b@.idx(row as int, col as int), 0);
    }
    let cell = b.get(row, col);
    let newcell = Cell { orbs: cell.orbs + 1, owner: o };
    b.set(row, col, newcell);
    proof {
        let i = b0.idx(row as int, col as int);
        lemma_orbs_from_update(b0.cells, i, b@.cells[i], 0);
        assert(b@ == bump(b0, row as int, col as int, (match o {
            Some(k) => Some(k as int),
            None => None,
        })));
        assert forall|j: int| 0 <= j < b@.cells.len() implies cell_wf(#[trigger] b@.cells[j]) by {
            assert(cell_wf(b0.cells[j]));
        }
    }
}

/// Explode the in-bounds cell at `(r, c)`, which must be at or over capacity.
fn explode_cell(b: &mut Board, row: usize, col: usize)
    requires
        old(b).wf(),
        old(b)@.in_bounds(row as int, col as int),
        over_cap(old(b)@, row as int, col as int),
        total_orbs(old(b)@) <= u32::MAX,
    ensures
        final(b)@ == explode(old(b)@, row as int, col as int),
        final(b).wf(),
        final(b)@.rows == old(b)@.rows,
        final(b)@.cols == old(b)@.cols,
        total_orbs(final(b)@) <= total_orbs(old(b)@),
{
    let ghost b0 = b@;
    let ghost t0 = total_orbs(b@);
    let ghost rows = b@.rows;
    let ghost cols = b@.cols;
    let ghost cap = spec_capacity(row as int, col as int, rows, cols);
    let cell = b.get(row, col);
    let o = cell.owner;
    let ghost orbs_e = b0.at(row as int, col as int).orbs;
    proof {
        lemma_idx_in_range(b@, row as int, col as int);
        assert(cell_wf(b0.at(row as int, col as int)));
        assert(orbs_e >= cap >= 2);
        assert(o is Some);
    }
    b.set(row, col, Cell { orbs: 0, owner: None });
    proof {
        let i = b0.idx(row as int, col as int);
        lemma_orbs_from_update(b0.cells, i, CellM { orbs: 0, owner: None }, 0);
        assert(total_orbs(b@) == t0 - orbs_e);
        assert forall|j: int| 0 <= j < b@.cells.len() implies cell_wf(#[trigger] b@.cells[j]) by {
            assert(cell_wf(b0.cells[j]));
        }
    }
    let mut up = false;
    let mut down = false;
    let mut left = false;
    if row >= 1 {
        bump_cell(b, row - 1, col, o);
        up = true;
    }
    if row + 1 < b.rows {
        proof {
            assert(total_orbs(b@) + 1 <= t0) by {
                assert(orbs_e >= 2);
            }
        }
        bump_cell(b, row + 1, col, o);
        down = true;
    }
    if col >= 1 {
        proof {
            if up && down {
                assert(row as int != 0 && row as int != rows - 1);
                assert(cap >= 3);
            }
            assert(total_orbs(b@) + 1 <= t0);
        }
        bump_cell(b, row, col - 1, o);
        left = true;
    }
    if col + 1 < b.cols {
        proof {
            if up && down && left {
                assert(row as int != 0 && row as int != rows - 1);
                assert(col as int != 0 && col as int != cols - 1);
                assert(cap == 4);
            } else if (up && down) || ((up || down) && left) {
                assert((row as int != 0 && row as int != rows - 1) || (col as int != 0
                    && col as int != cols - 1));
                assert(cap >= 3);
            }
            assert(total_orbs(b@) + 1 <= t0);
        }
        bump_cell(b, row, col + 1, o);
    }
    proof {
        assert(b@ == explode(b0, row as int, col as int));
    }
}

/// One full scan pass, exploding in place; reports whether anything exploded.
#[verifier::loop_isolation(false)]
fn do_pass(b: &mut Board) -> (fired: bool)
    requires
        old(b).wf(),
        total_orbs(old(b)@) <= u32::MAX,
    ensures
        final(b)@ == scan_from(old(b)@, 0, 0).0,
        fired == scan_from(old(b)@, 0, 0).1,
        final(b).wf(),
        final(b)@.rows == old(b)@.rows,
        final(b)@.cols == old(b)@.cols,
        total_orbs(final(b)@) <= total_orbs(old(b)@),
{
    let ghost b0 = b@;
    let ghost t0 = total_orbs(b@);
    let rows = b.rows;
    let cols = b.cols;
    let mut fired = false;
    let mut r: usize = 0;
    while r < rows
        invariant
            r <= rows,
            b.wf(),
            b@.rows == b0.rows,
            b@.cols == b0.cols,
            total_orbs(b@) <= t0,
            scan_from(b0, 0, 0).0 == scan_from(b@, r as int, 0).0,
            scan_from(b0, 0, 0).1 == (fired || scan_from(b@, r as int, 0).1),
        decreases rows - r,
    {
        let mut c: usize = 0;
        while c < cols
            invariant
                c <= cols,
                r < rows,
                b.wf(),
                b@.rows == b0.rows,
                b@.cols == b0.cols,
                total_orbs(b@) <= t0,
                scan_from(b0, 0, 0).0 == scan_from(b@, r as int, c as int).0,
                scan_from(b0, 0, 0).1 == (fired || scan_from(b@, r as int, c as int).1),
            decreases cols - c,
        {
            let cap = crate::board::get_max_capacity(r, c, rows, cols);
            let cell = b.get(r, c);
            if cell.orbs >= cap {
                explode_cell(b, r, c);
                fired = true;
            }
            c = c + 1;
        }
        r = r + 1;
    }
    fired
}

/// Whether some cell is at or over capacity.
#[verifier::loop_isolation(false)]
fn has_over_exec(b: &Board) -> (r: bool)
    requires
        b.wf(),
    ensures
        r == has_over(b@),
{
    let rows = b.rows;
    let cols = b.cols;
    let mut ri: usize = 0;
    while ri < rows
        invariant
            ri <= rows,
            forall|r2: int, c2: int| r2 < ri ==> !over_cap(b@, r2, c2),
        decreases rows - ri,
    {
        let mut ci: usize = 0;
        while ci < cols
            invariant
                ci <= cols,
                ri < rows,
                forall|r2: int, c2: int| r2 < ri ==> !over_cap(b@, r2, c2),
                forall|c2: int| c2 < ci ==> !over_cap(b@, ri as int, c2),
            decreases cols - ci,
        {
            let cap = crate::board::get_max_capacity(ri, ci, rows, cols);
            let cell = b.get(ri, ci);
            if cell.orbs >= cap {
                proof {
                    assert(over_cap(b@, ri as int, ci as int));
                }
                return true;
            }
            ci = ci + 1;
        }
        ri = ri + 1;
    }
    proof {
        assert forall|r2: int, c2: int| !over_cap(b@, r2, c2) by {
            if b@.in_bounds(r2, c2) {
                assert(r2 < rows);
            }
        }
    }
    false
}

/// A field-for-field copy of a board.
pub fn copy_board(b: &Board) -> (r: Board)
    ensures
        r@ == b@,
{
    let mut cells: Vec<Cell> = Vec::new();
    let n = b.cells.len();
    let mut i: usize = 0;
    while i < n
        invariant
            i <= n,
            n == b.cells.len(),
            cells@.len() == i,
            forall|j: int| 0 <= j < i ==> cells@[j] == b.cells@[j],
        decreases n - i,
    {
        cells.push(b.cells[i]);
        i = i + 1;
    }
    let r = Board { rows: b.rows, cols: b.cols, cells };
    proof {
        assert(r@.cells =~= b@.cells);
    }
    r
}

/// Resolve a placement: put one orb of `color` on `(row, col)` and run the
/// cascade until stable, or report `None` if the board is still unstable
/// after `PASS_LIMIT` passes.
///
/// The result is a function of the arguments alone: it equals the cascade of
/// the placed board at fuel `PASS_LIMIT`, and by `lemma_resolve_deterministic`
/// any fuel that settles gives the same board. Total orbs never grow by more
/// than the one placed orb; they shrink only when a cell explodes holding
/// more orbs than it distributes to in-bounds neighbors.
#[verifier::loop_isolation(false)]
pub fn resolve(board: &Board, row: u32, col: u32, color: u8) -> (r: Option<Board>)
    requires
        board.wf(),
        board@.in_bounds(row as int, col as int),
        color < PALETTE_SIZE,
        board@.at(row as int, col as int).owner is Some ==> board@.at(
            row as int,
            col as int,
        ).owner == Some(color as int),
        total_orbs(board@) + 1 <= u32::MAX,
    ensures
        (match r {
            Some(b2) => {
                &&& cascade(place(board@, row as int, col as int, color as int), PASS_LIMIT as nat)
                    == Some(b2@)
                &&& b2.wf()
                &&& b2@.rows == board@.rows
                &&& b2@.cols == board@.cols
                &&& total_orbs(b2@) <= total_orbs(board@) + 1
                &&& !has_over(b2@)
            },
            None => cascade(place(board@, row as int, col as int, color as int), PASS_LIMIT as nat)
                is None,
        }),
{
    let ghost t_in = total_orbs(board@);
    let mut cur = copy_board(board);
    proof {
        lemma_idx_in_range(cur@, row as int, col as int);
        lemma_cell_le_total(cur@.cells, cur@.idx(row as int, col as int), 0);
    }
    let cell = cur.get(row as usize, col as usize);
    cur.set(
        row as usize,
        col as usize,
        Cell { orbs: cell.orbs + 1, owner: Some(color) },
    );
    let ghost placed = place(board@, row as int, col as int, color as int);
    proof {
        assert(cur@ == placed);
        lemma_orbs_from_update(
            board@.cells,
            board@.idx(row as int, col as int),
            placed.cells[board@.idx(row as int, col as int)],
            0,
        );
        assert(total_orbs(placed) == t_in + 1);
        assert forall|j: int| 0 <= j < cur@.cells.len() implies cell_wf(
            #[trigger] cur@.cells[j],
        ) by {
            assert(cell_wf(board@.cells[j]));
        }
    }
    let mut k: u64 = 0;
    while k < PASS_LIMIT
        invariant
            k <= PASS_LIMIT,
            cur.wf(),
            cur@.rows == placed.rows,
            cur@.cols == placed.cols,
            total_orbs(cur@) <= total_orbs(placed),
            total_orbs(placed) == t_in + 1 <= u32::MAX,
            cur@ == iter_pass(placed, k as nat),
            forall|j: nat| j < k ==> has_over(#[trigger] iter_pass(placed, j)),
        decreases PASS_LIMIT - k,
    {
        let ghost pre = cur@;
        let fired = do_pass(&mut cur);
        proof {
            lemma_pass_fired(pre);
            lemma_iter_pass_snoc(placed, k as nat);
        }
        if !fired {
            proof {
                lemma_scan_noop(pre, 0, 0);
                assert(cur@ == pre);
                assert(!has_over(cur@));
                lemma_cascade_trace(placed, k as nat);
                assert(cascade(placed, k as nat) == Some(cur@));
                lemma_cascade_mono(placed, k as nat, PASS_LIMIT as nat);
            }
            return Some(cur);
        }
        k = k + 1;
    }
    let stable = !has_over_exec(&cur);
    proof {
        lemma_cascade_trace(placed, PASS_LIMIT as nat);
    }
    if stable {
        Some(cur)
    } else {
        None
    }
}

} // verus!
