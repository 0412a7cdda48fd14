use sudoku::{block_from_rc, rc_from_block};

#[test]
fn block_numbers() {
    assert_eq!(block_from_rc(0, 0), 0);
    assert_eq!(block_from_rc(4, 4), 4);
    assert_eq!(block_from_rc(8, 8), 8);
    assert_eq!(block_from_rc(2, 6), 2);
    assert_eq!(block_from_rc(6, 2), 6);
    assert_eq!(block_from_rc(5, 3), 4);
}

#[test]
fn block_cells() {
    assert_eq!(rc_from_block(0), [(0, 0), (0, 1), (0, 2), (1, 0), (1, 1), (1, 2), (2, 0), (2, 1), (2, 2)]);
    assert_eq!(rc_from_block(5), [(3, 6), (3, 7), (3, 8), (4, 6), (4, 7), (4, 8), (5, 6), (5, 7), (5, 8)]);
    assert_eq!(rc_from_block(7)[0], (6, 3));
    assert_eq!(rc_from_block(8)[8], (8, 8));
}

#[test]
fn blocks_and_cells_agree() {
    for b in 0..9usize {
        for (r, c) in rc_from_block(b) {
            assert_eq!(block_from_rc(r as usize, c as usize), b);
        }
    }
    for r in 0..9usize {
        for c in 0..9usize {
            let cells = rc_from_block(block_from_rc(r, c));
            assert_eq!(cells[(r % 3) * 3 + c % 3], (r as u8, c as u8));
        }
    }
}
