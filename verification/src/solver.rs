use vstd::prelude::*;
use crate::board::{block_cell_col, block_cell_row, block_from_rc, block_of, lemma_block_cells, rc_from_block, Grid};
use crate::misset::{count_missing, inter3, only_digit, HoodMisSet, HoodMisSetOps, MisSet, MisSetOps};
use crate::trace::{
    candidate_pass_upto, candidate_step, elimination_digits, elimination_pass_upto, elimination_step, event_matches, run_from, solve_run, events_match, lemma_events_push, sole_digit, Report,
};
use crate::rules::{
    apply_updates, block_missing, block_only, candidates, cells_in_range, col_missing, col_only,
    complete, empty_cells, forced, forced_chain, in_block, in_col, in_row, is_board,
    lemma_forced_chain_count, place, row_missing, row_only, stuck, CellUpdate,
};

verus! {

/// A puzzle held as nine rows of nine cells.
pub type Board = [[u8; 9]; 9];

/// The cells of a `Grid`, row by row.
pub open spec fn grid_view(g: Grid) -> Seq<Seq<u8>> {
    Seq::new(g@.len(), |r: int| g@[r]@)
}

/// The cells of a `Board`, row by row.
pub open spec fn board_view(b: Board) -> Seq<Seq<u8>> {
    Seq::new(9, |r: int| b[r]@)
}

/// The missing-digit sets of rows, columns and blocks are those of `g`.
pub open spec fn mis_exact(g: Seq<Seq<u8>>, rm: HoodMisSet, cm: HoodMisSet, bm: HoodMisSet) -> bool {
    &&& forall|i: int| 0 <= i < 9 ==> (#[trigger] rm[i])@ == row_missing(g, i)
    &&& forall|i: int| 0 <= i < 9 ==> (#[trigger] cm[i])@ == col_missing(g, i)
    &&& forall|i: int| 0 <= i < 9 ==> (#[trigger] bm[i])@ == block_missing(g, i)
}

/// The board that holds the cells of `grid`.
pub fn board_from_grid(grid: &Grid) -> (b: Board)
    requires
        is_board(grid_view(*grid)),
    ensures
        board_view(b) == grid_view(*grid),
{
    let mut b: Board = [[0u8; 9]; 9];
    let mut r: usize = 0;
    while r < 9
        invariant
            r <= 9,
            is_board(grid_view(*grid)),
            forall|x: int, y: int| 0 <= x < r && 0 <= y < 9 ==> b[x][y] == grid@[x]@[y],
        decreases 9 - r,
    {
        assert(grid_view(*grid)[r as int].len() == 9);
        let mut c: usize = 0;
        while c < 9
            invariant
                r < 9,
                c <= 9,
                grid@[r as int]@.len() == 9,
                grid@.len() == 9,
                forall|x: int, y: int| 0 <= x < r && 0 <= y < 9 ==> b[x][y] == grid@[x]@[y],
                forall|y: int| 0 <= y < c ==> b[r as int][y] == grid@[r as int]@[y],
            decreases 9 - c,
        {
            b[r][c] = grid[r][c];
            c = c + 1;
        }
        r = r + 1;
    }
    assert forall|x: int| 0 <= x < 9 implies board_view(b)[x] =~= grid_view(*grid)[x] by {
        assert(grid_view(*grid)[x].len() == 9);
    }
    assert(board_view(b) =~= grid_view(*grid));
    b
}

/// The grid that holds the cells of `b`.
pub fn grid_from_board(b: &Board) -> (g: Grid)
    ensures
        grid_view(g) == board_view(*b),
{
    let mut g: Grid = Vec::new();
    let mut r: usize = 0;
    while r < 9
        invariant
            r <= 9,
            g@.len() == r,
            forall|x: int| 0 <= x < r ==> (#[trigger] g@[x])@ == b[x]@,
        decreases 9 - r,
    {
        let mut row: Vec<u8> = Vec::new();
        let mut c: usize = 0;
        while c < 9
            invariant
                r < 9,
                c <= 9,
                row@.len() == c,
                forall|y: int| 0 <= y < c ==> row@[y] == b[r as int][y],
            decreases 9 - c,
        {
            row.push(b[r][c]);
            c = c + 1;
        }
        assert(row@ =~= b[r as int]@);
        g.push(row);
        r = r + 1;
    }
    assert(grid_view(g) =~= board_view(*b));
    g
}

/// Writing a digit into an empty cell takes it out of the missing digits of the
/// cell's row, column and block, and changes nothing else.
proof fn lemma_place_missing(g: Seq<Seq<u8>>, u: CellUpdate)
    requires
        is_board(g),
        u.row < 9,
        u.col < 9,
        g[u.row as int][u.col as int] == 0,
        1 <= u.digit <= 9,
    ensures
        is_board(place(g, u)),
        forall|x: int|
            0 <= x < 9 ==> #[trigger] row_missing(place(g, u), x) == if x == u.row {
                row_missing(g, x).update(u.digit - 1, false)
            } else {
                row_missing(g, x)
            },
        forall|y: int|
            0 <= y < 9 ==> #[trigger] col_missing(place(g, u), y) == if y == u.col {
                col_missing(g, y).update(u.digit - 1, false)
            } else {
                col_missing(g, y)
            },
        forall|b: int|
            0 <= b < 9 ==> #[trigger] block_missing(place(g, u), b) == if b == block_of(
                u.row as int,
                u.col as int,
            ) {
                block_missing(g, b).update(u.digit - 1, false)
            } else {
                block_missing(g, b)
            },
{
    let h = place(g, u);
    let r = u.row as int;
    let c = u.col as int;
    let d = u.digit as int;
    assert forall|x: int, y: int| 0 <= x < 9 && 0 <= y < 9 implies #[trigger] h[x][y] == if x == r && y
        == c {
        d as u8
    } else {
        g[x][y]
    } by {}
    assert forall|x: int, k: int| 0 <= x < 9 && 1 <= k <= 9 implies #[trigger] in_row(h, x, k) == (in_row(
        g,
        x,
        k,
    ) || (x == r && k == d)) by {
        if in_row(g, x, k) {
            let y = choose|y: int| 0 <= y < 9 && #[trigger] g[x][y] == k;
            assert(h[x][y] == k);
        }
        if in_row(h, x, k) {
            let y = choose|y: int| 0 <= y < 9 && #[trigger] h[x][y] == k;
            if !(x == r && y == c) {
                assert(g[x][y] == k);
            }
        }
        if x == r && k == d {
            assert(h[r][c] == d);
        }
    }
    assert forall|y: int, k: int| 0 <= y < 9 && 1 <= k <= 9 implies #[trigger] in_col(h, y, k) == (in_col(
        g,
        y,
        k,
    ) || (y == c && k == d)) by {
        if in_col(g, y, k) {
            let x = choose|x: int| 0 <= x < 9 && #[trigger] g[x][y] == k;
            assert(h[x][y] == k);
        }
        if in_col(h, y, k) {
            let x = choose|x: int| 0 <= x < 9 && #[trigger] h[x][y] == k;
            if !(x == r && y == c) {
                assert(g[x][y] == k);
            }
        }
        if y == c && k == d {
            assert(h[r][c] == d);
        }
    }
    assert forall|b: int, k: int| 0 <= b < 9 && 1 <= k <= 9 implies #[trigger] in_block(h, b, k) == (
    in_block(g, b, k) || (b == block_of(r, c) && k == d)) by {
        if in_block(g, b, k) {
            let (x, y) = choose|x: int, y: int|
                0 <= x < 9 && 0 <= y < 9 && block_of(x, y) == b && #[trigger] g[x][y] == k;
            assert(h[x][y] == k);
        }
        if in_block(h, b, k) {
            let (x, y) = choose|x: int, y: int|
                0 <= x < 9 && 0 <= y < 9 && block_of(x, y) == b && #[trigger] h[x][y] == k;
            if !(x == r && y == c) {
                assert(g[x][y] == k);
            }
        }
        if b == block_of(r, c) && k == d {
            assert(h[r][c] == d);
        }
    }
    assert forall|x: int| 0 <= x < 9 implies #[trigger] row_missing(h, x) == if x == r {
        row_missing(g, x).update(d - 1, false)
    } else {
        row_missing(g, x)
    } by {
        if x == r {
            assert(row_missing(h, x) =~= row_missing(g, x).update(d - 1, false));
        } else {
            assert(row_missing(h, x) =~= row_missing(g, x));
        }
    }
    assert forall|y: int| 0 <= y < 9 implies #[trigger] col_missing(h, y) == if y == c {
        col_missing(g, y).update(d - 1, false)
    } else {
        col_missing(g, y)
    } by {
        if y == c {
            assert(col_missing(h, y) =~= col_missing(g, y).update(d - 1, false));
        } else {
            assert(col_missing(h, y) =~= col_missing(g, y));
        }
    }
    assert forall|b: int| 0 <= b < 9 implies #[trigger] block_missing(h, b) == if b == block_of(r, c) {
        block_missing(g, b).update(d - 1, false)
    } else {
        block_missing(g, b)
    } by {
        if b == block_of(r, c) {
            assert(block_missing(h, b) =~= block_missing(g, b).update(d - 1, false));
        } else {
            assert(block_missing(h, b) =~= block_missing(g, b));
        }
    }
}

/// What the solver reports while it works, in order.
#[derive(Clone, Copy, Debug)]
pub enum SolveEvent {
    /// The board as it stands; where `show_notes` holds, each empty cell is to be
    /// shown with its candidates, taken from the missing-digit sets given.
    Notes { board: Board, show_notes: bool, row_mis: HoodMisSet, col_mis: HoodMisSet, blk_mis: HoodMisSet },
    /// An empty cell with no candidate, found in the given iteration.
    NoCandidates {
        iteration: u32,
        row: usize,
        col: usize,
        candidates: MisSet,
        row_set: MisSet,
        col_set: MisSet,
        blk_set: MisSet,
    },
    /// A digit written into a cell.
    Placed(CellUpdate),
    /// End of a pass of the candidate inference: the empty cells it met and the
    /// digits it wrote.
    PassDone { iteration: u32, empty_cells: u32, found: u32 },
    /// The solver gave up after too many iterations.
    IterationLimit { iteration: u32 },
    /// End of a pass of the elimination inference that wrote digits.
    EliminationDone { iteration: u32, empty_cells: u32, found: u32 },
    /// Neither inference wrote a digit: the solver stops with empty cells left.
    Stuck { iteration: u32, empty_cells: u32 },
    /// The solver stopped after the given number of iterations.
    Finished { iterations: u32 },
}

/// The updates that `Placed` events report, in order.
pub open spec fn placed_updates(es: Seq<SolveEvent>) -> Seq<CellUpdate>
    decreases es.len(),
{
    if es.len() == 0 {
        Seq::empty()
    } else {
        let prev = placed_updates(es.drop_last());
        match es.last() {
            SolveEvent::Placed(u) => prev.push(u),
            _ => prev,
        }
    }
}

/// `b` with the cells from the `n`-th on (row by row) left empty.
spec fn board_prefix(b: Board, n: int) -> Seq<Seq<u8>> {
    Seq::new(9, |x: int| Seq::new(9, |y: int| if x * 9 + y < n { b[x][y] } else { 0u8 }))
}

/// Missing-digit sets of the rows, columns and blocks of `b`.
fn missing_sets(b: &Board) -> (res: (HoodMisSet, HoodMisSet, HoodMisSet))
    requires
        cells_in_range(board_view(*b)),
    ensures
        mis_exact(board_view(*b), res.0, res.1, res.2),
{
    let mut row_mis = <HoodMisSet as HoodMisSetOps>::new();
    let mut col_mis = <HoodMisSet as HoodMisSetOps>::new();
    let mut blk_mis = <HoodMisSet as HoodMisSetOps>::new();
    proof {
        let z = board_prefix(*b, 0);
        assert forall|i: int| 0 <= i < 9 implies (#[trigger] row_mis[i])@ == row_missing(z, i) by {
            assert(row_missing(z, i) =~= row_mis[i]@);
        }
        assert forall|i: int| 0 <= i < 9 implies (#[trigger] col_mis[i])@ == col_missing(z, i) by {
            assert(col_missing(z, i) =~= col_mis[i]@);
        }
        assert forall|i: int| 0 <= i < 9 implies (#[trigger] blk_mis[i])@ == block_missing(z, i) by {
            assert(block_missing(z, i) =~= blk_mis[i]@);
        }
        assert(mis_exact(z, row_mis, col_mis, blk_mis));
    }
    let mut r: usize = 0;
    while r < 9
        invariant
            r <= 9,
            cells_in_range(board_view(*b)),
            mis_exact(board_prefix(*b, r * 9), row_mis, col_mis, blk_mis),
        decreases 9 - r,
    {
        let mut c: usize = 0;
        while c < 9
            invariant
                r < 9,
                c <= 9,
                cells_in_range(board_view(*b)),
                mis_exact(board_prefix(*b, r * 9 + c), row_mis, col_mis, blk_mis),
            decreases 9 - c,
        {
            let digit = b[r][c];
            let ghost p = board_prefix(*b, r * 9 + c);
            let ghost q = board_prefix(*b, r * 9 + c + 1);
            assert(board_view(*b)[r as int][c as int] == digit);
            if digit != 0 {
                let u = CellUpdate { row: r as u8, col: c as u8, digit };
                proof {
                    assert(q =~~= place(p, u));
                    lemma_place_missing(p, u);
                }
                let bi = block_from_rc(r, c);
                let mut m = col_mis[c];
                m.found(digit);
                col_mis[c] = m;
                let mut m = row_mis[r];
                m.found(digit);
                row_mis[r] = m;
                let mut m = blk_mis[bi];
                m.found(digit);
                blk_mis[bi] = m;
            } else {
                assert(q =~~= p);
            }
            c = c + 1;
        }
        r = r + 1;
    }
    assert(board_prefix(*b, 81) =~~= board_view(*b));
    (row_mis, col_mis, blk_mis)
}

/// `b` starts with the events of `a`.
spec fn events_extend(a: Seq<SolveEvent>, b: Seq<SolveEvent>) -> bool {
    a.len() <= b.len() && forall|i: int| 0 <= i < a.len() ==> b[i] == a[i]
}

/// The cell (`x`, `y`) shares a row, a column or a block with (`r`, `c`).
pub open spec fn same_unit(x: int, y: int, r: int, c: int) -> bool {
    x == r || y == c || block_of(x, y) == block_of(r, c)
}

/// The working state of the solver.
struct Solver {
    board: Board,
    row_mis: HoodMisSet,
    col_mis: HoodMisSet,
    blk_mis: HoodMisSet,
    /// Candidate sets of the cells, as the inferences last left them.
    grid_mis: [[MisSet; 9]; 9],
    updates: Vec<CellUpdate>,
    events: Vec<SolveEvent>,
}

impl Solver {
    /// The board is the input with the updates so far written into it, each of
    /// them forced; the missing-digit sets are those of the board; the events
    /// report the updates.
    spec fn wf(&self, input: Seq<Seq<u8>>) -> bool {
        &&& cells_in_range(board_view(self.board))
        &&& mis_exact(board_view(self.board), self.row_mis, self.col_mis, self.blk_mis)
        &&& forced_chain(input, self.updates@)
        &&& apply_updates(input, self.updates@) == board_view(self.board)
        &&& placed_updates(self.events@) == self.updates@
    }

    /// Writes the forced digit `d` at (`r`, `c`), updates the missing-digit sets,
    /// and reports the update.
    fn place_digit(&mut self, r: usize, c: usize, d: u8, Ghost(input): Ghost<Seq<Seq<u8>>>)
        requires
            old(self).wf(input),
            forced(board_view(old(self).board), r as int, c as int, d as int),
        ensures
            final(self).wf(input),
            board_view(final(self).board) == place(
                board_view(old(self).board),
                CellUpdate { row: r as u8, col: c as u8, digit: d },
            ),
            final(self).grid_mis == old(self).grid_mis,
            final(self).updates@ == old(self).updates@.push(CellUpdate { row: r as u8, col: c as u8, digit: d }),
            final(self).events@ == old(self).events@.push(
                SolveEvent::Placed(CellUpdate { row: r as u8, col: c as u8, digit: d }),
            ),
    {
        let u = CellUpdate { row: r as u8, col: c as u8, digit: d };
        let ghost g = board_view(self.board);
        let ghost us = self.updates@;
        proof {
            lemma_place_missing(g, u);
        }
        self.board[r][c] = d;
        assert(board_view(self.board) =~~= place(g, u));
        let bi = block_from_rc(r, c);
        let mut m = self.col_mis[c];
        m.found(d);
        self.col_mis[c] = m;
        let mut m = self.row_mis[r];
        m.found(d);
        self.row_mis[r] = m;
        let mut m = self.blk_mis[bi];
        m.found(d);
        self.blk_mis[bi] = m;
        self.updates.push(CellUpdate { row: r as u8, col: c as u8, digit: d });
        self.events.push(SolveEvent::Placed(CellUpdate { row: r as u8, col: c as u8, digit: d }));
        proof {
            let h = place(g, u);
            assert(self.updates@.drop_last() == us);
            assert(apply_updates(input, self.updates@) == h);
            assert forall|x: int, y: int| 0 <= x < 9 && 0 <= y < 9 implies #[trigger] h[x][y] <= 9 by {
                assert(g[x][y] <= 9);
            }
            assert forall|i: int|
                0 <= i < self.updates@.len() implies forced(
                #[trigger] apply_updates(input, self.updates@.take(i)),
                self.updates@[i].row as int,
                self.updates@[i].col as int,
                self.updates@[i].digit as int,
            ) by {
                if i < us.len() {
                    assert(self.updates@.take(i) =~= us.take(i));
                    assert(forced(apply_updates(input, us.take(i)), us[i].row as int, us[i].col as int, us[i].digit as int));
                } else {
                    assert(self.updates@.take(i) =~= us);
                }
            }
            assert(self.events@.drop_last() == old(self).events@);
            assert forall|i: int| 0 <= i < 9 implies (#[trigger] self.row_mis[i])@ == row_missing(h, i) by {
                assert(self.row_mis[i]@ =~= row_missing(h, i));
            }
            assert forall|i: int| 0 <= i < 9 implies (#[trigger] self.col_mis[i])@ == col_missing(h, i) by {
                assert(self.col_mis[i]@ =~= col_missing(h, i));
            }
            assert forall|i: int| 0 <= i < 9 implies (#[trigger] self.blk_mis[i])@ == block_missing(h, i) by {
                assert(self.blk_mis[i]@ =~= block_missing(h, i));
            }
        }
    }
}

/// The cell (`x`, `y`) is among the first `n` cells of block `b`.
spec fn among_block_cells(b: int, n: int, x: int, y: int) -> bool {
    exists|t: int| 0 <= t < n && #[trigger] block_cell_row(b, t) == x && block_cell_col(b, t) == y
}

/// Marks `d` as found in the candidate set of the cell (`x`, `y`).
fn found_at(gm: &mut [[MisSet; 9]; 9], x: usize, y: usize, d: u8)
    requires
        x < 9,
        y < 9,
        1 <= d <= 9,
    ensures
        forall|i: int, j: int|
            0 <= i < 9 && 0 <= j < 9 ==> (#[trigger] final(gm)[i][j])@ == if i == x && j == y {
                old(gm)[i][j]@.update(d - 1, false)
            } else {
                old(gm)[i][j]@
            },
{
    let mut m = gm[x][y];
    m.found(d);
    gm[x][y] = m;
}

/// Marks `d` as found in the candidate sets of every cell that shares a row, a
/// column or a block with (`r`, `c`), that cell included.
fn found_around(gm: &mut [[MisSet; 9]; 9], r: usize, c: usize, d: u8)
    requires
        r < 9,
        c < 9,
        1 <= d <= 9,
    ensures
        forall|x: int, y: int|
            0 <= x < 9 && 0 <= y < 9 ==> (#[trigger] final(gm)[x][y])@ == if same_unit(x, y, r as int, c as int) {
                old(gm)[x][y]@.update(d - 1, false)
            } else {
                old(gm)[x][y]@
            },
{
    let ghost orig = *gm;
    let ghost k = d - 1;
    found_at(gm, r, c, d);
    let mut i: usize = 0;
    while i < 9
        invariant
            i <= 9,
            r < 9,
            c < 9,
            1 <= d <= 9,
            k == d - 1,
            forall|x: int, y: int|
                0 <= x < 9 && 0 <= y < 9 ==> (#[trigger] gm[x][y])@ == if (x == r && y == c) || (y == c && x
                    < i) || (x == r && y < i) {
                    orig[x][y]@.update(k, false)
                } else {
                    orig[x][y]@
                },
        decreases 9 - i,
    {
        proof {
            assert(orig[i as int][c as int]@.update(k, false).update(k, false) =~= orig[i as int][c as int]@.update(k, false));
            assert(orig[r as int][i as int]@.update(k, false).update(k, false) =~= orig[r as int][i as int]@.update(k, false));
        }
        found_at(gm, i, c, d);
        found_at(gm, r, i, d);
        i = i + 1;
    }
    let bi = block_from_rc(r, c);
    let cells = rc_from_block(bi);
    let mut j: usize = 0;
    while j < 9
        invariant
            j <= 9,
            r < 9,
            c < 9,
            bi < 9,
            bi == block_of(r as int, c as int),
            1 <= d <= 9,
            k == d - 1,
            forall|t: int|
                0 <= t < 9 ==> (#[trigger] cells[t]).0 == block_cell_row(bi as int, t) && cells[t].1
                    == block_cell_col(bi as int, t),
            forall|x: int, y: int|
                0 <= x < 9 && 0 <= y < 9 ==> (#[trigger] gm[x][y])@ == if x == r || y == c || among_block_cells(bi as int, j as int, x, y) {
                    orig[x][y]@.update(k, false)
                } else {
                    orig[x][y]@
                },
        decreases 9 - j,
    {
        let (br, bc) = cells[j];
        proof {
            lemma_block_cells(bi as int, j as int, 0, 0);
        }
        let x0 = br as usize;
        let y0 = bc as usize;
        proof {
            assert(orig[x0 as int][y0 as int]@.update(k, false).update(k, false) =~= orig[x0 as int][y0 as int]@.update(k, false));
            assert forall|x: int, y: int|
                0 <= x < 9 && 0 <= y < 9 implies #[trigger] among_block_cells(bi as int, j + 1, x, y) == ((x == x0
                && y == y0) || among_block_cells(bi as int, j as int, x, y)) by {
                if among_block_cells(bi as int, j + 1, x, y) {
                    let t = choose|t: int| 0 <= t < j + 1 && #[trigger] block_cell_row(bi as int, t) == x && block_cell_col(bi as int, t) == y;
                    if t < j {
                        assert(among_block_cells(bi as int, j as int, x, y));
                    }
                }
                if x == x0 && y == y0 {
                    assert(block_cell_row(bi as int, j as int) == x);
                }
                if among_block_cells(bi as int, j as int, x, y) {
                    let t = choose|t: int| 0 <= t < j && #[trigger] block_cell_row(bi as int, t) == x && block_cell_col(bi as int, t) == y;
                    assert(block_cell_row(bi as int, t) == x);
                }
            }
        }
        found_at(gm, x0, y0, d);
        j = j + 1;
    }
    proof {
        assert forall|x: int, y: int| 0 <= x < 9 && 0 <= y < 9 implies (#[trigger] gm[x][y])@ == if same_unit(
            x,
            y,
            r as int,
            c as int,
        ) {
            orig[x][y]@.update(k, false)
        } else {
            orig[x][y]@
        } by {
            lemma_block_cells(0, 0, x, y);
            let t = (x % 3) * 3 + y % 3;
            if block_of(x, y) == bi {
                assert(block_cell_row(bi as int, t) == x && block_cell_col(bi as int, t) == y);
                assert(among_block_cells(bi as int, 9, x, y));
            }
            if among_block_cells(bi as int, 9, x, y) {
                let t2 = choose|t: int| 0 <= t < 9 && #[trigger] block_cell_row(bi as int, t) == x && block_cell_col(bi as int, t) == y;
                lemma_block_cells(bi as int, t2, 0, 0);
            }
        }
    }
}

/// The candidates of a cell are the digits that its row, column and block all miss.
pub proof fn lemma_candidates_from_sets(g: Seq<Seq<u8>>, rm: HoodMisSet, cm: HoodMisSet, bm: HoodMisSet, r: int, c: int)
    requires
        mis_exact(g, rm, cm, bm),
        0 <= r < 9,
        0 <= c < 9,
    ensures
        inter3(rm[r]@, cm[c]@, bm[block_of(r, c)]@) == candidates(g, r, c),
{
    lemma_block_cells(0, 0, r, c);
    let b = block_of(r, c);
    assert(rm[r]@ == row_missing(g, r));
    assert(cm[c]@ == col_missing(g, c));
    assert(bm[b]@ == block_missing(g, b));
    assert(inter3(rm[r]@, cm[c]@, bm[b]@) =~= candidates(g, r, c));
}

/// Writing `d` into an empty cell takes `d` out of the candidates of the cells
/// that share a row, a column or a block with it, and changes no other candidates.
proof fn lemma_place_candidates(g: Seq<Seq<u8>>, u: CellUpdate, x: int, y: int)
    requires
        is_board(g),
        u.row < 9,
        u.col < 9,
        g[u.row as int][u.col as int] == 0,
        1 <= u.digit <= 9,
        0 <= x < 9,
        0 <= y < 9,
    ensures
        candidates(place(g, u), x, y) == if same_unit(x, y, u.row as int, u.col as int) {
            candidates(g, x, y).update(u.digit - 1, false)
        } else {
            candidates(g, x, y)
        },
{
    lemma_place_missing(g, u);
    let h = place(g, u);
    lemma_block_cells(0, 0, x, y);
    let b = block_of(x, y);
    assert(row_missing(h, x) == if x == u.row {
        row_missing(g, x).update(u.digit - 1, false)
    } else {
        row_missing(g, x)
    });
    assert(col_missing(h, y) == if y == u.col {
        col_missing(g, y).update(u.digit - 1, false)
    } else {
        col_missing(g, y)
    });
    assert(block_missing(h, b) == if b == block_of(u.row as int, u.col as int) {
        block_missing(g, b).update(u.digit - 1, false)
    } else {
        block_missing(g, b)
    });
    assert forall|i: int| 0 <= i < 9 implies #[trigger] candidates(h, x, y)[i] == (row_missing(h, x)[i]
        && col_missing(h, y)[i] && block_missing(h, b)[i]) by {}
    assert forall|i: int| 0 <= i < 9 implies #[trigger] candidates(g, x, y)[i] == (row_missing(g, x)[i]
        && col_missing(g, y)[i] && block_missing(g, b)[i]) by {}
    if same_unit(x, y, u.row as int, u.col as int) {
        assert(candidates(h, x, y) =~= candidates(g, x, y).update(u.digit - 1, false));
    } else {
        assert(candidates(h, x, y) =~= candidates(g, x, y));
    }
}

/// Reporting an event other than a placement adds no update.
proof fn lemma_report_other(es: Seq<SolveEvent>, e: SolveEvent)
    requires
        !(e is Placed),
    ensures
        placed_updates(es.push(e)) == placed_updates(es),
{
    assert(es.push(e).drop_last() == es);
}

impl Solver {
    /// Adds an event that is not a placement.
    fn report(&mut self, e: SolveEvent, Ghost(input): Ghost<Seq<Seq<u8>>>)
        requires
            old(self).wf(input),
            !(e is Placed),
        ensures
            final(self).wf(input),
            final(self).events@ == old(self).events@.push(e),
            final(self).board == old(self).board,
            final(self).grid_mis == old(self).grid_mis,
            final(self).row_mis == old(self).row_mis,
            final(self).col_mis == old(self).col_mis,
            final(self).blk_mis == old(self).blk_mis,
            final(self).updates@ == old(self).updates@,
    {
        proof {
            lemma_report_other(self.events@, e);
        }
        self.events.push(e);
    }

    /// One pass of the candidate inference over the board as it stood at the
    /// start: each empty cell whose row, column and block leave a single
    /// candidate gets that digit. Returns the number of empty cells met and the
    /// number of digits written.
    fn candidate_pass(&mut self, iteration: u32, Ghost(input): Ghost<Seq<Seq<u8>>>) -> (res: (u32, u32))
        requires
            old(self).wf(input),
        ensures
            final(self).wf(input),
            events_extend(old(self).events@, final(self).events@),
            final(self).updates@.len() == old(self).updates@.len() + res.1,
            res.0 <= 81,
            res.1 <= res.0,
            res.0 == 0 ==> final(self).board == old(self).board && complete(board_view(final(self).board)),
            res.1 == 0 ==> final(self).board == old(self).board,
            res.1 == 0 ==> forall|x: int, y: int|
                0 <= x < 9 && 0 <= y < 9 && #[trigger] final(self).board[x][y] == 0 ==> {
                    &&& final(self).grid_mis[x][y]@ == candidates(board_view(final(self).board), x, y)
                    &&& count_missing(candidates(board_view(final(self).board), x, y)) != 1
                },
            ({
                let st = candidate_pass_upto(board_view(old(self).board), iteration as int, 81);
                &&& board_view(final(self).board) == st.board
                &&& events_match(final(self).events@.skip(old(self).events@.len() as int), st.reports)
                &&& res.0 == st.empty_cells
                &&& res.1 == st.found
            }),
    {
        let grid = self.board;
        let ghost ev0 = self.events@;
        let ghost n0 = self.updates@.len();
        let ghost gv = board_view(grid);
        proof {
            assert(self.events@.skip(ev0.len() as int) =~= Seq::<SolveEvent>::empty());
        }
        let mut unknown: u32 = 0;
        let mut change: u32 = 0;
        let mut r: usize = 0;
        while r < 9
            invariant
                r <= 9,
                self.wf(input),
                events_extend(ev0, self.events@),
                self.updates@.len() == n0 + change,
                forall|x: int, y: int|
                    0 <= x < 9 && 0 <= y < 9 && x * 9 + y >= r * 9 ==> #[trigger] self.board[x][y] == grid[x][y],
                unknown <= r * 9,
                change <= unknown,
                gv == board_view(grid),
                ev0.len() <= self.events@.len(),
                ({
                    let st = candidate_pass_upto(gv, iteration as int, (r * 9) as nat);
                    &&& board_view(self.board) == st.board
                    &&& events_match(self.events@.skip(ev0.len() as int), st.reports)
                    &&& unknown == st.empty_cells
                    &&& change == st.found
                }),
                unknown == 0 ==> forall|x: int, y: int|
                    0 <= x < 9 && 0 <= y < 9 && x * 9 + y < r * 9 ==> #[trigger] grid[x][y] != 0,
                change == 0 ==> self.board == grid,
                change == 0 ==> forall|x: int, y: int|
                    0 <= x < 9 && 0 <= y < 9 && x * 9 + y < r * 9 && #[trigger] grid[x][y] == 0 ==> {
                        &&& self.grid_mis[x][y]@ == candidates(board_view(grid), x, y)
                        &&& count_missing(candidates(board_view(grid), x, y)) != 1
                    },
            decreases 9 - r,
        {
            let mut c: usize = 0;
            while c < 9
                invariant
                    r < 9,
                    c <= 9,
                    self.wf(input),
                    events_extend(ev0, self.events@),
                    self.updates@.len() == n0 + change,
                    forall|x: int, y: int|
                        0 <= x < 9 && 0 <= y < 9 && x * 9 + y >= r * 9 + c ==> #[trigger] self.board[x][y]
                            == grid[x][y],
                    unknown <= r * 9 + c,
                    change <= unknown,
                    gv == board_view(grid),
                    ev0.len() <= self.events@.len(),
                    ({
                        let st = candidate_pass_upto(gv, iteration as int, (r * 9 + c) as nat);
                        &&& board_view(self.board) == st.board
                        &&& events_match(self.events@.skip(ev0.len() as int), st.reports)
                        &&& unknown == st.empty_cells
                        &&& change == st.found
                    }),
                    unknown == 0 ==> forall|x: int, y: int|
                        0 <= x < 9 && 0 <= y < 9 && x * 9 + y < r * 9 + c ==> #[trigger] grid[x][y] != 0,
                    change == 0 ==> self.board == grid,
                    change == 0 ==> forall|x: int, y: int|
                        0 <= x < 9 && 0 <= y < 9 && x * 9 + y < r * 9 + c && #[trigger] grid[x][y] == 0 ==> {
                            &&& self.grid_mis[x][y]@ == candidates(board_view(grid), x, y)
                            &&& count_missing(candidates(board_view(grid), x, y)) != 1
                        },
                decreases 9 - c,
            {
                let ghost k = r * 9 + c;
                let ghost st = candidate_pass_upto(gv, iteration as int, k as nat);
                proof {
                    assert(k / 9 == r && k % 9 == c);
                    assert(candidate_pass_upto(gv, iteration as int, (k + 1) as nat) == candidate_step(
                        gv,
                        iteration as int,
                        st,
                        k,
                    ));
                    assert(gv[r as int][c as int] == grid[r as int][c as int]);
                }
                if grid[r][c] == 0 {
                    unknown = unknown + 1;
                    let b = block_from_rc(r, c);
                    let m = self.row_mis[r].inters3(self.col_mis[c], self.blk_mis[b]);
                    proof {
                        lemma_candidates_from_sets(
                            board_view(self.board),
                            self.row_mis,
                            self.col_mis,
                            self.blk_mis,
                            r as int,
                            c as int,
                        );
                        assert(self.board[r as int][c as int] == 0);
                    }
                    let n = m.len();
                    let ghost ms = candidates(st.board, r as int, c as int);
                    assert(m@ == ms);
                    let ghost rep1 = if count_missing(ms) == 0 {
                        st.reports.push(
                            Report::NoCandidates {
                                iteration: iteration as int,
                                row: r as int,
                                col: c as int,
                                candidates: ms,
                                row_set: row_missing(st.board, r as int),
                                col_set: col_missing(st.board, c as int),
                                blk_set: block_missing(st.board, block_of(r as int, c as int)),
                            },
                        )
                    } else {
                        st.reports
                    };
                    if n == 0 {
                        let ghost es = self.events@;
                        self.report(
                            SolveEvent::NoCandidates {
                                iteration,
                                row: r,
                                col: c,
                                candidates: m,
                                row_set: self.row_mis[r],
                                col_set: self.col_mis[c],
                                blk_set: self.blk_mis[b],
                            },
                            Ghost(input),
                        );
                        proof {
                            lemma_events_push(
                                es,
                                ev0.len() as int,
                                st.reports,
                                self.events@.last(),
                                rep1.last(),
                            );
                            assert(self.events@ == es.push(self.events@.last()));
                        }
                    }
                    assert(events_match(self.events@.skip(ev0.len() as int), rep1));
                    if n == 1 {
                        let d = only_digit(&m);
                        proof {
                            assert(0 <= d - 1 < 9 && ms[d - 1]);
                            assert(sole_digit(ms) == d);
                        }
                        let ghost before = self.board;
                        let ghost es = self.events@;
                        self.place_digit(r, c, d, Ghost(input));
                        proof {
                            lemma_events_push(
                                es,
                                ev0.len() as int,
                                rep1,
                                self.events@.last(),
                                Report::Placed { row: r as int, col: c as int, digit: d as int },
                            );
                            assert(self.events@ == es.push(self.events@.last()));
                        }
                        proof {
                            assert forall|x: int, y: int|
                                0 <= x < 9 && 0 <= y < 9 && !(x == r && y == c) implies #[trigger] self.board[x][y]
                                == before[x][y] by {
                                assert(board_view(self.board)[x][y] == self.board[x][y]);
                                assert(board_view(before)[x][y] == before[x][y]);
                            }
                        }
                        self.grid_mis[r][c] = <MisSet as MisSetOps>::new_all_found();
                        change = change + 1;
                    } else {
                        self.grid_mis[r][c] = m;
                    }
                }
                c = c + 1;
            }
            r = r + 1;
        }
        (unknown, change)
    }
}

/// The candidates of (`r`, `c`) that no other empty cell among the first `n`
/// cells of row `r` has.
spec fn row_only_upto(g: Seq<Seq<u8>>, r: int, c: int, n: int) -> Seq<bool> {
    Seq::new(
        9,
        |i: int|
            candidates(g, r, c)[i] && forall|tc: int|
                0 <= tc < n && tc != c && g[r][tc] == 0 ==> !(#[trigger] candidates(g, r, tc))[i],
    )
}

/// The candidates of (`r`, `c`) that no other empty cell among the first `n`
/// cells of column `c` has.
spec fn col_only_upto(g: Seq<Seq<u8>>, r: int, c: int, n: int) -> Seq<bool> {
    Seq::new(
        9,
        |i: int|
            candidates(g, r, c)[i] && forall|tr: int|
                0 <= tr < n && tr != r && g[tr][c] == 0 ==> !(#[trigger] candidates(g, tr, c))[i],
    )
}

/// The candidates of (`r`, `c`) that no other empty cell among the first `n`
/// cells of block `b` has.
spec fn block_only_upto(g: Seq<Seq<u8>>, r: int, c: int, b: int, n: int) -> Seq<bool> {
    Seq::new(
        9,
        |i: int|
            candidates(g, r, c)[i] && forall|t: int|
                0 <= t < n && !(block_cell_row(b, t) == r && block_cell_col(b, t) == c)
                    && g[block_cell_row(b, t)][block_cell_col(b, t)] == 0 ==> !(#[trigger] candidates(
                    g,
                    block_cell_row(b, t),
                    block_cell_col(b, t),
                ))[i],
    )
}

impl Solver {
    /// The candidate set kept for each empty cell is its candidates.
    spec fn candidates_kept(&self) -> bool {
        forall|x: int, y: int|
            0 <= x < 9 && 0 <= y < 9 && #[trigger] self.board[x][y] == 0 ==> self.grid_mis[x][y]@
                == candidates(board_view(self.board), x, y)
    }

    /// The candidates of (`r`, `c`) that no other empty cell of its row has.
    fn row_only_set(&self, r: usize, c: usize) -> (ms: MisSet)
        requires
            r < 9,
            c < 9,
            self.board[r as int][c as int] == 0,
            self.candidates_kept(),
        ensures
            ms@ == row_only(board_view(self.board), r as int, c as int),
    {
        let ghost g = board_view(self.board);
        let mut ms = self.grid_mis[r][c];
        assert(ms@ =~= row_only_upto(g, r as int, c as int, 0));
        let mut tc: usize = 0;
        while tc < 9
            invariant
                r < 9,
                c < 9,
                tc <= 9,
                g == board_view(self.board),
                self.candidates_kept(),
                ms@ == row_only_upto(g, r as int, c as int, tc as int),
            decreases 9 - tc,
        {
            if tc != c && self.board[r][tc] == 0 {
                assert(g[r as int][tc as int] == 0);
                ms.remove(self.grid_mis[r][tc]);
            }
            assert(ms@ =~= row_only_upto(g, r as int, c as int, tc + 1));
            tc = tc + 1;
        }
        assert(ms@ =~= row_only(g, r as int, c as int));
        ms
    }

    /// The candidates of (`r`, `c`) that no other empty cell of its column has.
    fn col_only_set(&self, r: usize, c: usize) -> (ms: MisSet)
        requires
            r < 9,
            c < 9,
            self.board[r as int][c as int] == 0,
            self.candidates_kept(),
        ensures
            ms@ == col_only(board_view(self.board), r as int, c as int),
    {
        let ghost g = board_view(self.board);
        let mut ms = self.grid_mis[r][c];
        assert(ms@ =~= col_only_upto(g, r as int, c as int, 0));
        let mut tr: usize = 0;
        while tr < 9
            invariant
                r < 9,
                c < 9,
                tr <= 9,
                g == board_view(self.board),
                self.candidates_kept(),
                ms@ == col_only_upto(g, r as int, c as int, tr as int),
            decreases 9 - tr,
        {
            if tr != r && self.board[tr][c] == 0 {
                assert(g[tr as int][c as int] == 0);
                ms.remove(self.grid_mis[tr][c]);
            }
            assert(ms@ =~= col_only_upto(g, r as int, c as int, tr + 1));
            tr = tr + 1;
        }
        assert(ms@ =~= col_only(g, r as int, c as int));
        ms
    }

    /// The candidates of (`r`, `c`) that no other empty cell of its block has.
    fn block_only_set(&self, r: usize, c: usize) -> (ms: MisSet)
        requires
            r < 9,
            c < 9,
            self.board[r as int][c as int] == 0,
            self.candidates_kept(),
        ensures
            ms@ == block_only(board_view(self.board), r as int, c as int),
    {
        let ghost g = board_view(self.board);
        let i_blk = block_from_rc(r, c);
        let cells = rc_from_block(i_blk);
        let mut ms = self.grid_mis[r][c];
        assert(ms@ =~= block_only_upto(g, r as int, c as int, i_blk as int, 0));
        let mut k: usize = 0;
        while k < 9
            invariant
                r < 9,
                c < 9,
                k <= 9,
                i_blk < 9,
                g == board_view(self.board),
                self.candidates_kept(),
                forall|t: int|
                    0 <= t < 9 ==> (#[trigger] cells[t]).0 == block_cell_row(i_blk as int, t) && cells[t].1
                        == block_cell_col(i_blk as int, t),
                ms@ == block_only_upto(g, r as int, c as int, i_blk as int, k as int),
            decreases 9 - k,
        {
            let (tr, tc) = cells[k];
            proof {
                lemma_block_cells(i_blk as int, k as int, 0, 0);
            }
            let tr = tr as usize;
            let tc = tc as usize;
            if !(tr == r && tc == c) && self.board[tr][tc] == 0 {
                assert(g[tr as int][tc as int] == 0);
                ms.remove(self.grid_mis[tr][tc]);
            }
            assert(ms@ =~= block_only_upto(g, r as int, c as int, i_blk as int, k + 1));
            k = k + 1;
        }
        proof {
            let b = i_blk as int;
            assert forall|i: int| 0 <= i < 9 implies #[trigger] ms@[i] == block_only(g, r as int, c as int)[i] by {
                if ms@[i] {
                    assert forall|tr: int, tc: int|
                        0 <= tr < 9 && 0 <= tc < 9 && block_of(tr, tc) == block_of(r as int, c as int) && !(tr == r
                            && tc == c) && g[tr][tc] == 0 implies !(#[trigger] candidates(g, tr, tc))[i] by {
                        lemma_block_cells(0, 0, tr, tc);
                        let t = (tr % 3) * 3 + tc % 3;
                        assert(block_cell_row(b, t) == tr && block_cell_col(b, t) == tc);
                        assert(!candidates(g, block_cell_row(b, t), block_cell_col(b, t))[i]);
                    }
                }
                if block_only(g, r as int, c as int)[i] {
                    assert forall|t: int|
                        0 <= t < 9 && !(block_cell_row(b, t) == r && block_cell_col(b, t) == c)
                            && g[block_cell_row(b, t)][block_cell_col(b, t)] == 0 implies !(#[trigger] candidates(
                        g,
                        block_cell_row(b, t),
                        block_cell_col(b, t),
                    ))[i] by {
                        lemma_block_cells(b, t, 0, 0);
                        let tr = block_cell_row(b, t);
                        let tc = block_cell_col(b, t);
                        assert(!candidates(g, tr, tc)[i]);
                    }
                }
            }
            assert(ms@ =~= block_only(g, r as int, c as int));
        }
        ms
    }
}

impl Solver {
    /// One pass of the elimination inference, cell by cell over the current
    /// board: an empty cell gets a digit that it alone can still take in its
    /// row, else in its column, else in its block. Returns the number of empty
    /// cells met and the number of digits written.
    fn elimination_pass(&mut self, Ghost(input): Ghost<Seq<Seq<u8>>>) -> (res: (u32, u32))
        requires
            old(self).wf(input),
            old(self).candidates_kept(),
        ensures
            final(self).wf(input),
            events_extend(old(self).events@, final(self).events@),
            final(self).updates@.len() == old(self).updates@.len() + res.1,
            final(self).candidates_kept(),
            res.0 <= 81,
            res.1 <= res.0,
            res.0 == 0 ==> complete(board_view(final(self).board)),
            res.1 == 0 ==> final(self).board == old(self).board,
            res.1 == 0 ==> forall|x: int, y: int|
                0 <= x < 9 && 0 <= y < 9 && #[trigger] final(self).board[x][y] == 0 ==> {
                    &&& count_missing(row_only(board_view(final(self).board), x, y)) != 1
                    &&& count_missing(col_only(board_view(final(self).board), x, y)) != 1
                    &&& count_missing(block_only(board_view(final(self).board), x, y)) != 1
                },
            ({
                let st = elimination_pass_upto(board_view(old(self).board), 81);
                &&& board_view(final(self).board) == st.board
                &&& events_match(final(self).events@.skip(old(self).events@.len() as int), st.reports)
                &&& res.0 == st.empty_cells
                &&& res.1 == st.found
            }),
    {
        let ghost start = self.board;
        let ghost ev0 = self.events@;
        let ghost n0 = self.updates@.len();
        let ghost gv = board_view(start);
        proof {
            assert(self.events@.skip(ev0.len() as int) =~= Seq::<SolveEvent>::empty());
        }
        let mut unknown: u32 = 0;
        let mut change: u32 = 0;
        let mut r: usize = 0;
        while r < 9
            invariant
                r <= 9,
                self.wf(input),
                events_extend(ev0, self.events@),
                self.updates@.len() == n0 + change,
                self.candidates_kept(),
                unknown <= r * 9,
                change <= unknown,
                gv == board_view(start),
                ev0.len() <= self.events@.len(),
                ({
                    let st = elimination_pass_upto(gv, (r * 9) as nat);
                    &&& board_view(self.board) == st.board
                    &&& events_match(self.events@.skip(ev0.len() as int), st.reports)
                    &&& unknown == st.empty_cells
                    &&& change == st.found
                }),
                unknown == 0 ==> forall|x: int, y: int|
                    0 <= x < 9 && 0 <= y < 9 && x * 9 + y < r * 9 ==> #[trigger] start[x][y] != 0,
                change == 0 ==> self.board == start,
                change == 0 ==> forall|x: int, y: int|
                    0 <= x < 9 && 0 <= y < 9 && x * 9 + y < r * 9 && #[trigger] start[x][y] == 0 ==> {
                        &&& count_missing(row_only(board_view(start), x, y)) != 1
                        &&& count_missing(col_only(board_view(start), x, y)) != 1
                        &&& count_missing(block_only(board_view(start), x, y)) != 1
                    },
            decreases 9 - r,
        {
            let mut c: usize = 0;
            while c < 9
                invariant
                    r < 9,
                    c <= 9,
                    self.wf(input),
                    events_extend(ev0, self.events@),
                    self.updates@.len() == n0 + change,
                    self.candidates_kept(),
                    unknown <= r * 9 + c,
                    change <= unknown,
                    gv == board_view(start),
                    ev0.len() <= self.events@.len(),
                    ({
                        let st = elimination_pass_upto(gv, (r * 9 + c) as nat);
                        &&& board_view(self.board) == st.board
                        &&& events_match(self.events@.skip(ev0.len() as int), st.reports)
                        &&& unknown == st.empty_cells
                        &&& change == st.found
                    }),
                    unknown == 0 ==> forall|x: int, y: int|
                        0 <= x < 9 && 0 <= y < 9 && x * 9 + y < r * 9 + c ==> #[trigger] start[x][y] != 0,
                    change == 0 ==> self.board == start,
                    change == 0 ==> forall|x: int, y: int|
                        0 <= x < 9 && 0 <= y < 9 && x * 9 + y < r * 9 + c && #[trigger] start[x][y] == 0 ==> {
                            &&& count_missing(row_only(board_view(start), x, y)) != 1
                            &&& count_missing(col_only(board_view(start), x, y)) != 1
                            &&& count_missing(block_only(board_view(start), x, y)) != 1
                        },
                decreases 9 - c,
            {
                let ghost k = r * 9 + c;
                let ghost st = elimination_pass_upto(gv, k as nat);
                proof {
                    assert(k / 9 == r && k % 9 == c);
                    assert(elimination_pass_upto(gv, (k + 1) as nat) == elimination_step(st, k));
                    assert(st.board[r as int][c as int] == self.board[r as int][c as int]);
                }
                if self.board[r][c] == 0 {
                    unknown = unknown + 1;
                    let ghost g = board_view(self.board);
                    assert(g[r as int][c as int] == 0);
                    let mut ms = self.row_only_set(r, c);
                    let ghost row_set = ms@;
                    if ms.len() != 1 {
                        ms = self.col_only_set(r, c);
                    }
                    let ghost col_set = ms@;
                    if ms.len() != 1 {
                        ms = self.block_only_set(r, c);
                    }
                    assert(ms@ == elimination_digits(g, r as int, c as int));
                    if ms.len() == 1 {
                        let d = only_digit(&ms);
                        assert(forced(g, r as int, c as int, d as int));
                        proof {
                            assert(0 <= d - 1 < 9 && ms@[d - 1]);
                            assert(sole_digit(ms@) == d);
                        }
                        let ghost es = self.events@;
                        self.place_digit(r, c, d, Ghost(input));
                        proof {
                            lemma_events_push(
                                es,
                                ev0.len() as int,
                                st.reports,
                                self.events@.last(),
                                Report::Placed { row: r as int, col: c as int, digit: d as int },
                            );
                            assert(self.events@ == es.push(self.events@.last()));
                        }
                        let mut gm = self.grid_mis;
                        found_around(&mut gm, r, c, d);
                        self.grid_mis = gm;
                        proof {
                            let u = CellUpdate { row: r as u8, col: c as u8, digit: d };
                            let h = board_view(self.board);
                            assert(h == place(g, u));
                            assert forall|x: int, y: int|
                                0 <= x < 9 && 0 <= y < 9 && #[trigger] self.board[x][y] == 0 implies self.grid_mis[x][y]@
                                == candidates(h, x, y) by {
                                assert(h[x][y] == self.board[x][y]);
                                assert(!(x == r && y == c));
                                assert(g[x][y] == h[x][y]);
                                lemma_place_candidates(g, u, x, y);
                            }
                        }
                        change = change + 1;
                    } else {
                        proof {
                            assert(count_missing(row_set) != 1);
                            assert(count_missing(col_set) != 1);
                        }
                    }
                }
                c = c + 1;
            }
            r = r + 1;
        }
        (unknown, change)
    }
}

/// What `solve` hands back.
pub struct Solved {
    /// The board as far as the inferences could fill it.
    pub grid: Grid,
    /// The digits written, in order.
    pub updates: Vec<CellUpdate>,
    /// What the solver reported, in order.
    pub events: Vec<SolveEvent>,
    /// The number of iterations used.
    pub iterations: u32,
}

/// Matching events for a prefix and for the rest make matching events for the whole.
proof fn lemma_events_concat(es1: Seq<SolveEvent>, es2: Seq<SolveEvent>, n: int, x: Seq<Report>, y: Seq<Report>)
    requires
        0 <= n <= es1.len(),
        events_extend(es1, es2),
        events_match(es1.skip(n), x),
        events_match(es2.skip(es1.len() as int), y),
    ensures
        events_match(es2.skip(n), x + y),
{
    assert(es2.skip(n) =~= es1.skip(n) + es2.skip(es1.len() as int));
}

/// A matching first event in front of matching events.
proof fn lemma_events_first(es: Seq<SolveEvent>, r0: Report, rs: Seq<Report>)
    requires
        es.len() >= 1,
        event_matches(es[0], r0),
        events_match(es.skip(1), rs),
    ensures
        events_match(es, seq![r0] + rs),
{
    assert(seq![r0] + rs =~= seq![r0] + rs);
    assert forall|i: int| 0 <= i < es.len() implies event_matches(#[trigger] es[i], (seq![r0] + rs)[i]) by {
        if i > 0 {
            assert(es[i] == es.skip(1)[i - 1]);
        }
    }
}

/// Solves the puzzle as far as two inferences reach, without guessing.
///
/// Each iteration first shows the board with its candidates, then writes every
/// empty cell that has a single candidate (the candidate inference, over the
/// board as it stood when the pass began). If that wrote nothing and empty
/// cells remain, it writes, cell by cell, each digit that one empty cell alone
/// can still take in its row, else its column, else its block (the elimination
/// inference). The solver stops when no empty cell is left or when neither
/// inference writes a digit. It would also give up after 100 iterations, but
/// every iteration that does not stop writes a digit, so that limit is never met.
///
/// The events, the final board and the iteration count are those of
/// `solve_run`, which states this run step by step.
pub fn solve(grid: Grid) -> (out: Solved)
    requires
        is_board(grid_view(grid)),
        cells_in_range(grid_view(grid)),
    ensures
        events_match(out.events@, solve_run(grid_view(grid)).reports),
        grid_view(out.grid) == solve_run(grid_view(grid)).board,
        out.iterations == solve_run(grid_view(grid)).iterations,
        is_board(grid_view(out.grid)),
        grid_view(out.grid) == apply_updates(grid_view(grid), out.updates@),
        forced_chain(grid_view(grid), out.updates@),
        placed_updates(out.events@) == out.updates@,
        1 <= out.iterations <= out.updates@.len() + 1,
        out.updates@.len() + empty_cells(grid_view(out.grid)) == empty_cells(grid_view(grid)),
        complete(grid_view(out.grid)) || stuck(grid_view(out.grid)),
{
    let ghost input = grid_view(grid);
    let ghost total = run_from(input, 0);
    let board = board_from_grid(&grid);
    let (row_mis, col_mis, blk_mis) = missing_sets(&board);
    let mut s = Solver {
        board,
        row_mis,
        col_mis,
        blk_mis,
        grid_mis: [[[true; 9]; 9]; 9],
        updates: Vec::new(),
        events: Vec::new(),
    };
    proof {
        assert(apply_updates(input, s.updates@) == input);
        assert(placed_updates(s.events@) =~= s.updates@);
    }
    s.report(
        SolveEvent::Notes { board: s.board, show_notes: false, row_mis: s.row_mis, col_mis: s.col_mis, blk_mis: s.blk_mis },
        Ghost(input),
    );
    let ghost e0 = s.events@[0];
    let ghost mut done: Seq<Report> = Seq::empty();
    proof {
        assert(s.events@.skip(1) =~= Seq::<SolveEvent>::empty());
        assert(done + run_from(input, 0).reports =~= total.reports);
    }
    let mut unknown: u32 = 1;
    let mut loop_count: u32 = 0;
    loop
        invariant_except_break
            is_board(input),
            cells_in_range(input),
            s.wf(input),
            loop_count <= s.updates@.len(),
            unknown > 0,
            s.events@.len() >= 1,
            s.events@[0] == e0,
            events_match(s.events@.skip(1), done),
            total == run_from(input, 0),
            total.reports == done + run_from(board_view(s.board), loop_count as nat).reports,
            total.board == run_from(board_view(s.board), loop_count as nat).board,
            total.iterations == run_from(board_view(s.board), loop_count as nat).iterations,
        ensures
            s.wf(input),
            1 <= loop_count <= s.updates@.len() + 1,
            complete(board_view(s.board)) || stuck(board_view(s.board)),
            s.events@.len() >= 1,
            s.events@[0] == e0,
            events_match(s.events@.skip(1), done),
            total.reports == done,
            total.board == board_view(s.board),
            total.iterations == loop_count,
        decreases 101 - loop_count,
    {
        let ghost b0 = board_view(s.board);
        let ghost lc0 = loop_count as nat;
        let ghost es0 = s.events@;
        let ghost run = run_from(b0, lc0);
        proof {
            lemma_forced_chain_count(input, s.updates@);
            assert(es0.skip(es0.len() as int) =~= Seq::<SolveEvent>::empty());
        }
        s.report(
            SolveEvent::Notes {
                board: s.board,
                show_notes: true,
                row_mis: s.row_mis,
                col_mis: s.col_mis,
                blk_mis: s.blk_mis,
            },
            Ghost(input),
        );
        let ghost mut cur: Seq<Report> = seq![Report::Notes { board: b0, show_notes: true }];
        proof {
            lemma_events_push(es0, es0.len() as int, Seq::empty(), s.events@.last(), cur[0]);
            assert(s.events@ == es0.push(s.events@.last()));
            assert(Seq::<Report>::empty().push(cur[0]) =~= cur);
        }
        let ghost es1 = s.events@;
        let (u1, ch1) = s.candidate_pass(loop_count, Ghost(input));
        let ghost p1 = candidate_pass_upto(b0, lc0 as int, 81);
        proof {
            lemma_events_concat(es1, s.events@, es0.len() as int, cur, p1.reports);
            cur = cur + p1.reports;
        }
        unknown = u1;
        let mut change = ch1;
        loop_count = loop_count + 1;
        if loop_count > 100 {
            assert(false);
            s.report(SolveEvent::IterationLimit { iteration: loop_count }, Ghost(input));
            break;
        }
        let ghost es2 = s.events@;
        s.report(SolveEvent::PassDone { iteration: loop_count, empty_cells: unknown, found: change }, Ghost(input));
        proof {
            let r = Report::PassDone { iteration: loop_count as int, empty_cells: p1.empty_cells as int, found: p1.found as int };
            lemma_events_push(es2, es0.len() as int, cur, s.events@.last(), r);
            assert(s.events@ == es2.push(s.events@.last()));
            cur = cur.push(r);
            assert(cur =~= seq![Report::Notes { board: b0, show_notes: true }] + p1.reports + seq![r]);
        }
        if unknown > 0 && change == 0 {
            let ghost es3 = s.events@;
            let (u2, ch2) = s.elimination_pass(Ghost(input));
            let ghost p2 = elimination_pass_upto(p1.board, 81);
            proof {
                lemma_events_concat(es3, s.events@, es0.len() as int, cur, p2.reports);
                cur = cur + p2.reports;
            }
            unknown = u2;
            change = ch2;
            if change > 0 {
                let ghost es4 = s.events@;
                s.report(
                    SolveEvent::EliminationDone { iteration: loop_count, empty_cells: unknown, found: change },
                    Ghost(input),
                );
                proof {
                    let r = Report::EliminationDone {
                        iteration: loop_count as int,
                        empty_cells: p2.empty_cells as int,
                        found: p2.found as int,
                    };
                    lemma_events_push(es4, es0.len() as int, cur, s.events@.last(), r);
                    assert(s.events@ == es4.push(s.events@.last()));
                    cur = cur.push(r);
                }
            }
        }
        if unknown > 0 && change == 0 {
            proof {
                assert forall|x: int, y: int|
                    0 <= x < 9 && 0 <= y < 9 && #[trigger] board_view(s.board)[x][y] == 0 implies {
                    &&& count_missing(candidates(board_view(s.board), x, y)) != 1
                    &&& count_missing(row_only(board_view(s.board), x, y)) != 1
                    &&& count_missing(col_only(board_view(s.board), x, y)) != 1
                    &&& count_missing(block_only(board_view(s.board), x, y)) != 1
                } by {
                    assert(board_view(s.board)[x][y] == s.board[x][y]);
                }
            }
            let ghost es5 = s.events@;
            s.report(SolveEvent::Stuck { iteration: loop_count, empty_cells: unknown }, Ghost(input));
            proof {
                let r = Report::Stuck { iteration: loop_count as int, empty_cells: unknown as int };
                lemma_events_push(es5, es0.len() as int, cur, s.events@.last(), r);
                assert(s.events@ == es5.push(s.events@.last()));
                cur = cur.push(r);
                assert(run.reports =~= cur);
                lemma_events_concat(es0, s.events@, 1, done, cur);
                done = done + cur;
                assert(total.reports =~= done);
            }
            break;
        }
        if unknown == 0 {
            assert forall|x: int, y: int| 0 <= x < 9 && 0 <= y < 9 implies #[trigger] board_view(s.board)[x][y]
                != 0 by {
                assert(board_view(s.board)[x][y] == s.board[x][y]);
            }
            proof {
                assert(run.reports =~= cur);
                lemma_events_concat(es0, s.events@, 1, done, cur);
                done = done + cur;
                assert(total.reports =~= done);
            }
            break;
        }
        proof {
            let rest = run_from(board_view(s.board), loop_count as nat);
            assert(run.reports =~= cur + rest.reports);
            lemma_events_concat(es0, s.events@, 1, done, cur);
            done = done + cur;
            assert(total.reports =~= done + rest.reports);
        }
    }
    let ghost es6 = s.events@;
    s.report(SolveEvent::Finished { iterations: loop_count }, Ghost(input));
    proof {
        lemma_events_concat(es6, s.events@, 1, done, seq![Report::Finished { iterations: loop_count as int }]);
        assert(s.events@.skip(es6.len() as int) =~= seq![s.events@.last()]);
    }
    let ghost es7 = s.events@;
    s.report(
        SolveEvent::Notes { board: s.board, show_notes: false, row_mis: s.row_mis, col_mis: s.col_mis, blk_mis: s.blk_mis },
        Ghost(input),
    );
    proof {
        let fin = seq![Report::Finished { iterations: loop_count as int }];
        let last = seq![Report::Notes { board: board_view(s.board), show_notes: false }];
        assert(s.events@.skip(es7.len() as int) =~= seq![s.events@.last()]);
        lemma_events_concat(es7, s.events@, 1, done + fin, last);
        lemma_events_first(s.events@, Report::Notes { board: input, show_notes: false }, done + fin + last);
        assert(seq![Report::Notes { board: input, show_notes: false }] + (done + fin + last) =~= solve_run(input).reports);
    }
    let out_grid = grid_from_board(&s.board);
    proof {
        lemma_forced_chain_count(input, s.updates@);
    }
    Solved { grid: out_grid, updates: s.updates, events: s.events, iterations: loop_count }
}

} // verus!
