use chain_orb::board::create_empty_board;
use chain_orb::board::get_board_size;
use chain_orb::board::get_max_capacity;

#[test]
fn capacity_corners_are_two() {
    for &(rows, cols) in &[(9usize, 6usize), (12, 10), (15, 15)] {
        assert_eq!(get_max_capacity(0, 0, rows, cols), 2);
        assert_eq!(get_max_capacity(0, cols - 1, rows, cols), 2);
        assert_eq!(get_max_capacity(rows - 1, 0, rows, cols), 2);
        assert_eq!(get_max_capacity(rows - 1, cols - 1, rows, cols), 2);
    }
}

#[test]
fn capacity_edges_are_three() {
    for &(rows, cols) in &[(9usize, 6usize), (12, 10), (15, 15)] {
        assert_eq!(get_max_capacity(0, 1, rows, cols), 3);
        assert_eq!(get_max_capacity(rows - 1, 1, rows, cols), 3);
        assert_eq!(get_max_capacity(1, 0, rows, cols), 3);
        assert_eq!(get_max_capacity(1, cols - 1, rows, cols), 3);
    }
}

#[test]
fn capacity_interior_is_four() {
    for &(rows, cols) in &[(9usize, 6usize), (12, 10), (15, 15)] {
        for r in 1..rows - 1 {
            for c in 1..cols - 1 {
                assert_eq!(get_max_capacity(r, c, rows, cols), 4);
            }
        }
    }
}

#[test]
fn board_size_brackets() {
    assert_eq!(get_board_size(2), (9, 6));
    assert_eq!(get_board_size(3), (12, 10));
    assert_eq!(get_board_size(4), (12, 10));
    assert_eq!(get_board_size(5), (15, 15));
}

#[test]
fn board_size_fallback() {
    assert_eq!(get_board_size(0), (9, 6));
    assert_eq!(get_board_size(1), (9, 6));
    assert_eq!(get_board_size(6), (15, 15));
    assert_eq!(get_board_size(100), (15, 15));
}

#[test]
fn empty_board_has_no_orbs() {
    let b = create_empty_board(9, 6);
    assert_eq!(b.rows, 9);
    assert_eq!(b.cols, 6);
    assert_eq!(b.cells.len(), 54);
    for cell in &b.cells {
        assert_eq!(cell.orbs, 0);
        assert!(cell.owner.is_none());
    }
}
