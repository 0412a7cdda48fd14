use vstd::prelude::*;

verus! {

/// The value of a cell that is not filled in yet.
pub const UNKNOWN: u8 = 0;

/// A puzzle: nine rows of nine cells, top to bottom and left to right, each a
/// digit from 1 to 9 or `UNKNOWN`.
pub type Grid = Vec<Vec<u8>>;

/// The block (3x3 square) of the cell at row `r`, column `c`. Blocks are numbered
///
/// ```text
/// 0|1|2
/// 3|4|5
/// 6|7|8
/// ```
pub open spec fn block_of(r: int, c: int) -> int {
    c / 3 + (r / 3) * 3
}

/// Row of the `k`-th cell (0 to 8, row by row) of block `b`.
pub open spec fn block_cell_row(b: int, k: int) -> int {
    (b / 3) * 3 + k / 3
}

/// Column of the `k`-th cell (0 to 8, row by row) of block `b`.
pub open spec fn block_cell_col(b: int, k: int) -> int {
    (b % 3) * 3 + k % 3
}

/// Index of the 3x3 block that holds the cell at row `i_row`, column `i_col`.
pub fn block_from_rc(i_row: usize, i_col: usize) -> (b: usize)
    requires
        i_row < 9,
        i_col < 9,
    ensures
        b == block_of(i_row as int, i_col as int),
        b < 9,
{
    i_col / 3 + (i_row / 3) * 3
}

/// The nine cells of block `i_block`, as (row, column), row by row.
pub fn rc_from_block(i_block: usize) -> (cells: [(u8, u8); 9])
    requires
        i_block < 9,
    ensures
        forall|k: int|
            0 <= k < 9 ==> (#[trigger] cells[k]).0 == block_cell_row(i_block as int, k) && cells[k].1
                == block_cell_col(i_block as int, k),
{
    let offset: (u8, u8) = match i_block {
        0 => (0u8, 0u8),
        1 => (0, 3),
        2 => (0, 6),
        3 => (3, 0),
        4 => (3, 3),
        5 => (3, 6),
        6 => (6, 0),
        7 => (6, 3),
        _ => (6, 6),
    };
    let base: [(u8, u8); 9] = [(0, 0), (0, 1), (0, 2), (1, 0), (1, 1), (1, 2), (2, 0), (2, 1), (2, 2)];
    let mut cells: [(u8, u8); 9] = [(0, 0); 9];
    let mut k: usize = 0;
    while k < 9
        invariant
            k <= 9,
            i_block < 9,
            offset.0 == (i_block as int / 3) * 3,
            offset.1 == (i_block as int % 3) * 3,
            forall|j: int| 0 <= j < 9 ==> (#[trigger] base[j]).0 == j / 3 && base[j].1 == j % 3,
            forall|j: int|
                0 <= j < k ==> (#[trigger] cells[j]).0 == block_cell_row(i_block as int, j)
                    && cells[j].1 == block_cell_col(i_block as int, j),
        decreases 9 - k,
    {
        let (r, c) = base[k];
        cells[k] = (r + offset.0, c + offset.1);
        k = k + 1;
    }
    cells
}

/// Block numbers and block cells describe the same squares: the `k`-th cell of
/// block `b` lies in block `b`, and every cell is the `(r % 3) * 3 + c % 3`-th
/// cell of its own block.
pub proof fn lemma_block_cells(b: int, k: int, r: int, c: int)
    ensures
        0 <= b < 9 && 0 <= k < 9 ==> {
            &&& 0 <= block_cell_row(b, k) < 9
            &&& 0 <= block_cell_col(b, k) < 9
            &&& block_of(block_cell_row(b, k), block_cell_col(b, k)) == b
        },
        0 <= r < 9 && 0 <= c < 9 ==> {
            &&& 0 <= block_of(r, c) < 9
            &&& block_cell_row(block_of(r, c), (r % 3) * 3 + c % 3) == r
            &&& block_cell_col(block_of(r, c), (r % 3) * 3 + c % 3) == c
        },
{
}

} // verus!
