use vstd::prelude::*;
use crate::board::block_of;
use crate::misset::{count_missing, lemma_count_one_unique};

verus! {

/// A 9x9 shape: nine rows of nine cells.
pub open spec fn is_board(g: Seq<Seq<u8>>) -> bool {
    &&& g.len() == 9
    &&& forall|r: int| 0 <= r < 9 ==> (#[trigger] g[r]).len() == 9
}

/// Every cell holds `UNKNOWN` or a digit from 1 to 9.
pub open spec fn cells_in_range(g: Seq<Seq<u8>>) -> bool {
    forall|r: int, c: int| 0 <= r < 9 && 0 <= c < 9 ==> #[trigger] g[r][c] <= 9
}

/// Digit `d` is filled in somewhere in row `r`.
pub open spec fn in_row(g: Seq<Seq<u8>>, r: int, d: int) -> bool {
    exists|c: int| 0 <= c < 9 && #[trigger] g[r][c] == d
}

/// Digit `d` is filled in somewhere in column `c`.
pub open spec fn in_col(g: Seq<Seq<u8>>, c: int, d: int) -> bool {
    exists|r: int| 0 <= r < 9 && #[trigger] g[r][c] == d
}

/// Digit `d` is filled in somewhere in block `b`.
pub open spec fn in_block(g: Seq<Seq<u8>>, b: int, d: int) -> bool {
    exists|r: int, c: int| 0 <= r < 9 && 0 <= c < 9 && block_of(r, c) == b && #[trigger] g[r][c] == d
}

/// The digits missing from row `r` (entry `i` for digit `i + 1`).
pub open spec fn row_missing(g: Seq<Seq<u8>>, r: int) -> Seq<bool> {
    Seq::new(9, |i: int| !in_row(g, r, i + 1))
}

/// The digits missing from column `c`.
pub open spec fn col_missing(g: Seq<Seq<u8>>, c: int) -> Seq<bool> {
    Seq::new(9, |i: int| !in_col(g, c, i + 1))
}

/// The digits missing from block `b`.
pub open spec fn block_missing(g: Seq<Seq<u8>>, b: int) -> Seq<bool> {
    Seq::new(9, |i: int| !in_block(g, b, i + 1))
}

/// The candidates of the cell at (`r`, `c`): the digits missing from its row,
/// its column and its block at once.
pub open spec fn candidates(g: Seq<Seq<u8>>, r: int, c: int) -> Seq<bool> {
    Seq::new(
        9,
        |i: int| !in_row(g, r, i + 1) && !in_col(g, c, i + 1) && !in_block(g, block_of(r, c), i + 1),
    )
}

/// The candidates of (`r`, `c`) that no other empty cell of row `r` has.
pub open spec fn row_only(g: Seq<Seq<u8>>, r: int, c: int) -> Seq<bool> {
    Seq::new(
        9,
        |i: int|
            candidates(g, r, c)[i] && forall|tc: int|
                0 <= tc < 9 && tc != c && g[r][tc] == 0 ==> !(#[trigger] candidates(g, r, tc))[i],
    )
}

/// The candidates of (`r`, `c`) that no other empty cell of column `c` has.
pub open spec fn col_only(g: Seq<Seq<u8>>, r: int, c: int) -> Seq<bool> {
    Seq::new(
        9,
        |i: int|
            candidates(g, r, c)[i] && forall|tr: int|
                0 <= tr < 9 && tr != r && g[tr][c] == 0 ==> !(#[trigger] candidates(g, tr, c))[i],
    )
}

/// The candidates of (`r`, `c`) that no other empty cell of its block has.
pub open spec fn block_only(g: Seq<Seq<u8>>, r: int, c: int) -> Seq<bool> {
    Seq::new(
        9,
        |i: int|
            candidates(g, r, c)[i] && forall|tr: int, tc: int|
                0 <= tr < 9 && 0 <= tc < 9 && block_of(tr, tc) == block_of(r, c) && !(tr == r && tc
                    == c) && g[tr][tc] == 0 ==> !(#[trigger] candidates(g, tr, tc))[i],
    )
}

/// The empty cell (`r`, `c`) can only hold `d`: `d` is its one candidate, or the
/// one candidate of it that no other empty cell of its row, of its column or of
/// its block has.
pub open spec fn forced(g: Seq<Seq<u8>>, r: int, c: int, d: int) -> bool {
    &&& 0 <= r < 9
    &&& 0 <= c < 9
    &&& g[r][c] == 0
    &&& 1 <= d <= 9
    &&& {
        ||| count_missing(candidates(g, r, c)) == 1 && candidates(g, r, c)[d - 1]
        ||| count_missing(row_only(g, r, c)) == 1 && row_only(g, r, c)[d - 1]
        ||| count_missing(col_only(g, r, c)) == 1 && col_only(g, r, c)[d - 1]
        ||| count_missing(block_only(g, r, c)) == 1 && block_only(g, r, c)[d - 1]
    }
}

/// Neither inference fills any empty cell of `g`.
pub open spec fn stuck(g: Seq<Seq<u8>>) -> bool {
    forall|r: int, c: int|
        0 <= r < 9 && 0 <= c < 9 && #[trigger] g[r][c] == 0 ==> {
            &&& count_missing(candidates(g, r, c)) != 1
            &&& count_missing(row_only(g, r, c)) != 1
            &&& count_missing(col_only(g, r, c)) != 1
            &&& count_missing(block_only(g, r, c)) != 1
        }
}

/// No cell is empty.
pub open spec fn complete(g: Seq<Seq<u8>>) -> bool {
    forall|r: int, c: int| 0 <= r < 9 && 0 <= c < 9 ==> #[trigger] g[r][c] != 0
}

/// A solved sudoku: each row, each column and each block holds every digit from
/// 1 to 9 exactly once.
pub open spec fn is_solution(s: Seq<Seq<u8>>) -> bool {
    &&& is_board(s)
    &&& forall|r: int, c: int| 0 <= r < 9 && 0 <= c < 9 ==> 1 <= #[trigger] s[r][c] <= 9
    &&& forall|r: int, d: int| 0 <= r < 9 && 1 <= d <= 9 ==> #[trigger] in_row(s, r, d)
    &&& forall|c: int, d: int| 0 <= c < 9 && 1 <= d <= 9 ==> #[trigger] in_col(s, c, d)
    &&& forall|b: int, d: int| 0 <= b < 9 && 1 <= d <= 9 ==> #[trigger] in_block(s, b, d)
    &&& forall|r: int, c1: int, c2: int|
        0 <= r < 9 && 0 <= c1 < 9 && 0 <= c2 < 9 && c1 != c2 ==> #[trigger] s[r][c1] != #[trigger] s[r][c2]
    &&& forall|r1: int, r2: int, c: int|
        0 <= r1 < 9 && 0 <= r2 < 9 && 0 <= c < 9 && r1 != r2 ==> #[trigger] s[r1][c] != #[trigger] s[r2][c]
    &&& forall|r1: int, c1: int, r2: int, c2: int|
        0 <= r1 < 9 && 0 <= c1 < 9 && 0 <= r2 < 9 && 0 <= c2 < 9 && block_of(r1, c1) == block_of(r2, c2)
            && !(r1 == r2 && c1 == c2) ==> #[trigger] s[r1][c1] != #[trigger] s[r2][c2]
}

/// `s` keeps every digit that is filled in in `g`.
pub open spec fn agrees(g: Seq<Seq<u8>>, s: Seq<Seq<u8>>) -> bool {
    forall|r: int, c: int| 0 <= r < 9 && 0 <= c < 9 && #[trigger] g[r][c] != 0 ==> g[r][c] == s[r][c]
}

/// In a solution that keeps the digits of `g`, each empty cell of `g` holds one
/// of its candidates.
pub proof fn lemma_solution_is_candidate(g: Seq<Seq<u8>>, s: Seq<Seq<u8>>, r: int, c: int)
    requires
        is_board(g),
        is_solution(s),
        agrees(g, s),
        0 <= r < 9,
        0 <= c < 9,
        g[r][c] == 0,
    ensures
        candidates(g, r, c)[s[r][c] - 1],
{
    let v = s[r][c] as int;
    assert(1 <= s[r][c] <= 9);
    if in_row(g, r, v) {
        let c2 = choose|c2: int| 0 <= c2 < 9 && #[trigger] g[r][c2] == v;
        assert(s[r][c2] == v);
    }
    if in_col(g, c, v) {
        let r2 = choose|r2: int| 0 <= r2 < 9 && #[trigger] g[r2][c] == v;
        assert(s[r2][c] == v);
    }
    if in_block(g, block_of(r, c), v) {
        let (r2, c2) = choose|r2: int, c2: int|
            0 <= r2 < 9 && 0 <= c2 < 9 && block_of(r2, c2) == block_of(r, c) && #[trigger] g[r2][c2] == v;
        assert(s[r2][c2] == v);
    }
}

/// A forced digit is the digit of that cell in every solution that keeps the
/// digits of `g`.
pub proof fn lemma_forced_is_solution(g: Seq<Seq<u8>>, s: Seq<Seq<u8>>, r: int, c: int, d: int)
    requires
        is_board(g),
        is_solution(s),
        agrees(g, s),
        forced(g, r, c, d),
    ensures
        s[r][c] == d,
{
    lemma_solution_is_candidate(g, s, r, c);
    let v = s[r][c] as int;
    assert(1 <= s[r][c] <= 9);
    if count_missing(candidates(g, r, c)) == 1 && candidates(g, r, c)[d - 1] {
        lemma_count_one_unique(candidates(g, r, c), d - 1, v - 1);
    } else if count_missing(row_only(g, r, c)) == 1 && row_only(g, r, c)[d - 1] {
        assert(in_row(s, r, d));
        let c2 = choose|c2: int| 0 <= c2 < 9 && #[trigger] s[r][c2] == d;
        if c2 != c {
            if g[r][c2] != 0 {
                assert(g[r][c2] == d);
                assert(in_row(g, r, d));
            } else {
                lemma_solution_is_candidate(g, s, r, c2);
                assert(!candidates(g, r, c2)[d - 1]);
            }
        }
    } else if count_missing(col_only(g, r, c)) == 1 && col_only(g, r, c)[d - 1] {
        assert(in_col(s, c, d));
        let r2 = choose|r2: int| 0 <= r2 < 9 && #[trigger] s[r2][c] == d;
        if r2 != r {
            if g[r2][c] != 0 {
                assert(g[r2][c] == d);
                assert(in_col(g, c, d));
            } else {
                lemma_solution_is_candidate(g, s, r2, c);
                assert(!candidates(g, r2, c)[d - 1]);
            }
        }
    } else {
        let b = block_of(r, c);
        assert(0 <= b < 9);
        assert(in_block(s, b, d));
        let (r2, c2) = choose|r2: int, c2: int|
            0 <= r2 < 9 && 0 <= c2 < 9 && block_of(r2, c2) == b && #[trigger] s[r2][c2] == d;
        if !(r2 == r && c2 == c) {
            if g[r2][c2] != 0 {
                assert(g[r2][c2] == d);
                assert(in_block(g, b, d));
            } else {
                lemma_solution_is_candidate(g, s, r2, c2);
                assert(!candidates(g, r2, c2)[d - 1]);
            }
        }
    }
}

} // verus!

verus! {

/// A digit written into a cell; the solver reports one for each cell it fills.
#[derive(Clone, Copy, Debug)]
pub struct CellUpdate {
    pub row: u8,
    pub col: u8,
    pub digit: u8,
}

/// `g` with `u.digit` written at (`u.row`, `u.col`).
pub open spec fn place(g: Seq<Seq<u8>>, u: CellUpdate) -> Seq<Seq<u8>> {
    g.update(u.row as int, g[u.row as int].update(u.col as int, u.digit))
}

/// `g` with the updates `us` written in order.
pub open spec fn apply_updates(g: Seq<Seq<u8>>, us: Seq<CellUpdate>) -> Seq<Seq<u8>>
    decreases us.len(),
{
    if us.len() == 0 {
        g
    } else {
        place(apply_updates(g, us.drop_last()), us.last())
    }
}

/// Each update writes a forced digit into the board that the updates before it leave.
pub open spec fn forced_chain(g: Seq<Seq<u8>>, us: Seq<CellUpdate>) -> bool {
    forall|i: int|
        0 <= i < us.len() ==> forced(
            #[trigger] apply_updates(g, us.take(i)),
            us[i].row as int,
            us[i].col as int,
            us[i].digit as int,
        )
}

/// Forced updates keep the shape, keep every digit already filled in, and never
/// write anything but a digit from 1 to 9 into an empty cell.
pub proof fn lemma_forced_chain_keeps(g: Seq<Seq<u8>>, us: Seq<CellUpdate>)
    requires
        is_board(g),
        cells_in_range(g),
        forced_chain(g, us),
    ensures
        is_board(apply_updates(g, us)),
        cells_in_range(apply_updates(g, us)),
        agrees(g, apply_updates(g, us)),
    decreases us.len(),
{
    if us.len() > 0 {
        let pre = us.drop_last();
        assert forall|i: int| 0 <= i < pre.len() implies forced(
            #[trigger] apply_updates(g, pre.take(i)),
            pre[i].row as int,
            pre[i].col as int,
            pre[i].digit as int,
        ) by {
            assert(pre.take(i) =~= us.take(i));
            assert(forced(apply_updates(g, us.take(i)), us[i].row as int, us[i].col as int, us[i].digit as int));
        }
        lemma_forced_chain_keeps(g, pre);
        let i = us.len() - 1;
        assert(us.take(i) =~= pre);
        assert(forced(apply_updates(g, us.take(i)), us[i].row as int, us[i].col as int, us[i].digit as int));
        let h = apply_updates(g, pre);
        let u = us.last();
        assert(apply_updates(g, us) == place(h, u));
        assert forall|r: int, c: int| 0 <= r < 9 && 0 <= c < 9 && #[trigger] g[r][c] != 0 implies g[r][c]
            == place(h, u)[r][c] by {
            assert(h[r][c] == g[r][c]);
        }
    }
}

/// Soundness of the inferences: in every solution that keeps the digits of `g`,
/// each cell that a chain of forced updates fills holds the digit it was given.
pub proof fn lemma_forced_chain_sound(g: Seq<Seq<u8>>, us: Seq<CellUpdate>, s: Seq<Seq<u8>>)
    requires
        is_board(g),
        cells_in_range(g),
        is_solution(s),
        agrees(g, s),
        forced_chain(g, us),
    ensures
        agrees(apply_updates(g, us), s),
    decreases us.len(),
{
    if us.len() > 0 {
        let pre = us.drop_last();
        assert forall|i: int| 0 <= i < pre.len() implies forced(
            #[trigger] apply_updates(g, pre.take(i)),
            pre[i].row as int,
            pre[i].col as int,
            pre[i].digit as int,
        ) by {
            assert(pre.take(i) =~= us.take(i));
            assert(forced(apply_updates(g, us.take(i)), us[i].row as int, us[i].col as int, us[i].digit as int));
        }
        lemma_forced_chain_sound(g, pre, s);
        lemma_forced_chain_keeps(g, pre);
        let i = us.len() - 1;
        assert(us.take(i) =~= pre);
        let h = apply_updates(g, pre);
        let u = us.last();
        assert(forced(h, u.row as int, u.col as int, u.digit as int));
        lemma_forced_is_solution(h, s, u.row as int, u.col as int, u.digit as int);
        assert(apply_updates(g, us) == place(h, u));
    }
}

/// A board with no empty cell admits no forced update.
pub proof fn lemma_complete_admits_no_update(g: Seq<Seq<u8>>, us: Seq<CellUpdate>)
    requires
        complete(g),
        forced_chain(g, us),
    ensures
        us.len() == 0,
{
    if us.len() > 0 {
        assert(us.take(0) =~= Seq::<CellUpdate>::empty());
        assert(forced(apply_updates(g, us.take(0)), us[0].row as int, us[0].col as int, us[0].digit as int));
        assert(apply_updates(g, us.take(0)) == g);
    }
}

/// When forced updates fill every cell, the result is the solution: any
/// solution that keeps the digits of `g` equals it, so there is at most one.
pub proof fn lemma_filled_board_is_the_solution(g: Seq<Seq<u8>>, us: Seq<CellUpdate>, s: Seq<Seq<u8>>)
    requires
        is_board(g),
        cells_in_range(g),
        forced_chain(g, us),
        complete(apply_updates(g, us)),
        is_solution(s),
        agrees(g, s),
    ensures
        apply_updates(g, us) == s,
{
    lemma_forced_chain_keeps(g, us);
    lemma_forced_chain_sound(g, us, s);
    let h = apply_updates(g, us);
    assert forall|r: int| 0 <= r < 9 implies #[trigger] h[r] =~= s[r] by {
        assert forall|c: int| 0 <= c < 9 implies h[r][c] == s[r][c] by {
            assert(h[r][c] != 0);
        }
    }
    assert(h =~= s);
}

/// The number of empty cells among the first `n` cells of `g`, row by row.
pub open spec fn empty_cells_upto(g: Seq<Seq<u8>>, n: nat) -> nat
    decreases n,
{
    if n == 0 {
        0
    } else {
        let k = n - 1;
        empty_cells_upto(g, (n - 1) as nat) + if g[k / 9][k % 9] == 0 {
            1nat
        } else {
            0nat
        }
    }
}

/// The number of empty cells of `g`.
pub open spec fn empty_cells(g: Seq<Seq<u8>>) -> nat {
    empty_cells_upto(g, 81)
}

proof fn lemma_place_empty_count(g: Seq<Seq<u8>>, u: CellUpdate, n: nat)
    requires
        is_board(g),
        u.row < 9,
        u.col < 9,
        g[u.row as int][u.col as int] == 0,
        u.digit != 0,
        n <= 81,
    ensures
        empty_cells_upto(place(g, u), n) + (if n > u.row * 9 + u.col {
            1nat
        } else {
            0nat
        }) == empty_cells_upto(g, n),
    decreases n,
{
    if n > 0 {
        lemma_place_empty_count(g, u, (n - 1) as nat);
        let k = n - 1;
        let h = place(g, u);
        assert(0 <= k / 9 < 9 && 0 <= k % 9 < 9);
        assert((k / 9 == u.row && k % 9 == u.col) <==> k == u.row * 9 + u.col);
        if !(k / 9 == u.row && k % 9 == u.col) {
            assert(h[k / 9][k % 9] == g[k / 9][k % 9]);
        } else {
            assert(h[k / 9][k % 9] == u.digit);
        }
    }
}

/// Each forced update fills one empty cell: the updates and the empty cells
/// they leave add up to the empty cells of `g`, so there are at most 81 updates.
pub proof fn lemma_forced_chain_count(g: Seq<Seq<u8>>, us: Seq<CellUpdate>)
    requires
        is_board(g),
        cells_in_range(g),
        forced_chain(g, us),
    ensures
        us.len() + empty_cells(apply_updates(g, us)) == empty_cells(g),
        us.len() <= 81,
    decreases us.len(),
{
    lemma_empty_cells_bound(g, 81);
    if us.len() > 0 {
        let pre = us.drop_last();
        assert forall|i: int| 0 <= i < pre.len() implies forced(
            #[trigger] apply_updates(g, pre.take(i)),
            pre[i].row as int,
            pre[i].col as int,
            pre[i].digit as int,
        ) by {
            assert(pre.take(i) =~= us.take(i));
            assert(forced(apply_updates(g, us.take(i)), us[i].row as int, us[i].col as int, us[i].digit as int));
        }
        lemma_forced_chain_count(g, pre);
        lemma_forced_chain_keeps(g, pre);
        let i = us.len() - 1;
        assert(us.take(i) =~= pre);
        let h = apply_updates(g, pre);
        let u = us.last();
        assert(forced(h, u.row as int, u.col as int, u.digit as int));
        lemma_place_empty_count(h, u, 81);
        assert(apply_updates(g, us) == place(h, u));
    }
}

proof fn lemma_empty_cells_bound(g: Seq<Seq<u8>>, n: nat)
    ensures
        empty_cells_upto(g, n) <= n,
    decreases n,
{
    if n > 0 {
        lemma_empty_cells_bound(g, (n - 1) as nat);
    }
}

} // verus!
