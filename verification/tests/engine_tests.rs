use chain_orb::board::create_empty_board;
use chain_orb::board::get_max_capacity;
use chain_orb::board::Board;
use chain_orb::board::Cell;
use chain_orb::engine::resolve;

fn total_orbs(b: &Board) -> u64 {
    b.cells.iter().map(|c| c.orbs as u64).sum()
}

#[test]
fn corner_placement_without_explosion() {
    let b = create_empty_board(9, 6);
    let r = resolve(&b, 0, 0, 0).expect("cascade settles");
    assert_eq!(r.cells[0].orbs, 1);
    assert_eq!(r.cells[0].owner, Some(0));
    assert_eq!(total_orbs(&r), 1);
}

#[test]
fn corner_explosion_feeds_both_neighbors() {
    let mut b = create_empty_board(9, 6);
    b.set(0, 0, Cell { orbs: 1, owner: Some(0) });
    let r = resolve(&b, 0, 0, 0).expect("cascade settles");
    // the corner reached its capacity of two and exploded
    assert_eq!(r.cells[0].orbs, 0);
    assert_eq!(r.cells[0].owner, None);
    assert_eq!(r.cells[1].orbs, 1);
    assert_eq!(r.cells[1].owner, Some(0));
    assert_eq!(r.cells[6].orbs, 1);
    assert_eq!(r.cells[6].owner, Some(0));
    assert_eq!(total_orbs(&r), 2);
}

#[test]
fn explosion_captures_rival_orbs() {
    let mut b = create_empty_board(9, 6);
    b.set(0, 0, Cell { orbs: 1, owner: Some(0) });
    b.set(0, 1, Cell { orbs: 1, owner: Some(1) });
    let r = resolve(&b, 0, 0, 0).expect("cascade settles");
    assert_eq!(r.cells[1].orbs, 2);
    assert_eq!(r.cells[1].owner, Some(0));
}

#[test]
fn resolve_is_deterministic() {
    let mut b = create_empty_board(9, 6);
    b.set(0, 0, Cell { orbs: 1, owner: Some(2) });
    b.set(0, 1, Cell { orbs: 2, owner: Some(2) });
    b.set(1, 0, Cell { orbs: 2, owner: Some(3) });
    b.set(1, 1, Cell { orbs: 3, owner: Some(2) });
    let r1 = resolve(&b, 0, 0, 2).expect("cascade settles");
    let r2 = resolve(&b, 0, 0, 2).expect("cascade settles");
    assert_eq!(r1.rows, r2.rows);
    assert_eq!(r1.cols, r2.cols);
    for (c1, c2) in r1.cells.iter().zip(r2.cells.iter()) {
        assert_eq!(c1.orbs, c2.orbs);
        assert_eq!(c1.owner, c2.owner);
    }
}

#[test]
fn resolution_adds_at_most_one_orb() {
    // a board dense enough to cascade across several cells
    let mut b = create_empty_board(9, 6);
    for r in 0..3usize {
        for c in 0..3usize {
            let cap = get_max_capacity(r, c, 9, 6);
            b.set(r, c, Cell { orbs: cap - 1, owner: Some(0) });
        }
    }
    let before = total_orbs(&b);
    let after_board = resolve(&b, 1, 1, 0).expect("cascade settles");
    assert!(total_orbs(&after_board) <= before + 1);
    // the settled board has no cell at or over capacity
    for r in 0..9usize {
        for c in 0..6usize {
            let cap = get_max_capacity(r, c, 9, 6);
            assert!(after_board.cells[r * 6 + c].orbs < cap);
        }
    }
}

#[test]
fn boundary_overflow_loses_orbs() {
    // an over-full corner distributes only two of its three orbs
    let mut b = create_empty_board(9, 6);
    b.set(0, 0, Cell { orbs: 2, owner: Some(1) });
    b.set(0, 1, Cell { orbs: 1, owner: Some(1) });
    // placing on (0,1) leaves the corner untouched; place on the corner
    let r = resolve(&b, 0, 0, 1).expect("cascade settles");
    // corner had 3 orbs at explosion, neighbors got one each: one orb lost
    assert_eq!(total_orbs(&r), 3);
}

#[test]
fn unsettled_cascade_is_reported() {
    // on a 2x2 board of single red orbs one more orb cycles forever:
    // every explosion hands exactly its capacity to its two neighbors,
    // so no orb is ever lost and some cell is always at capacity
    let mut b = create_empty_board(2, 2);
    for r in 0..2usize {
        for c in 0..2usize {
            b.set(r, c, Cell { orbs: 1, owner: Some(0) });
        }
    }
    assert!(resolve(&b, 0, 0, 0).is_none());
}

