use vstd::prelude::*;
use crate::board::{block_from_rc, block_of, Grid};
use crate::misset::{digit_char, digit_str, inter3, set_text, HoodMisSet, MisSetOps};
use crate::rules::{candidates, is_board};
use crate::solver::{grid_view, lemma_candidates_from_sets, mis_exact};

verus! {

/// The decimal text of `v`.
pub open spec fn u8_text(v: u8) -> Seq<char> {
    if v < 10 {
        seq![digit_char(v as int)]
    } else if v < 100 {
        seq![digit_char(v as int / 10), digit_char(v as int % 10)]
    } else {
        seq![digit_char(v as int / 100), digit_char((v as int / 10) % 10), digit_char(v as int % 10)]
    }
}

/// The line drawn under the third and the sixth row.
pub open spec fn rule_line() -> Seq<char> {
    " --------------------------\n"@
}

/// How the cell at (`r`, `c`) is shown: a separator (a bar before the fourth
/// and the seventh column), then its digit after a space, or, when it is empty,
/// its candidates where `show_notes` holds and two spaces where not.
pub open spec fn cell_text(
    g: Seq<Seq<u8>>,
    show_notes: bool,
    rm: HoodMisSet,
    cm: HoodMisSet,
    bm: HoodMisSet,
    r: int,
    c: int,
) -> Seq<char> {
    let sep = if c > 0 && c % 3 == 0 {
        '|'
    } else {
        ' '
    };
    seq![sep] + if g[r][c] != 0 {
        seq![' '] + u8_text(g[r][c])
    } else if show_notes {
        set_text(inter3(rm[r]@, cm[c]@, bm[block_of(r, c)]@))
    } else {
        seq![' ', ' ']
    }
}

/// The first `n` cells of row `r`, shown.
pub open spec fn row_cells_text(
    g: Seq<Seq<u8>>,
    show_notes: bool,
    rm: HoodMisSet,
    cm: HoodMisSet,
    bm: HoodMisSet,
    r: int,
    n: nat,
) -> Seq<char>
    decreases n,
{
    if n == 0 {
        Seq::empty()
    } else {
        row_cells_text(g, show_notes, rm, cm, bm, r, (n - 1) as nat) + cell_text(
            g,
            show_notes,
            rm,
            cm,
            bm,
            r,
            n - 1,
        )
    }
}

/// Row `r`, shown as a line, with the rule line after the third and the sixth row.
pub open spec fn row_text(
    g: Seq<Seq<u8>>,
    show_notes: bool,
    rm: HoodMisSet,
    cm: HoodMisSet,
    bm: HoodMisSet,
    r: int,
) -> Seq<char> {
    row_cells_text(g, show_notes, rm, cm, bm, r, g[r].len()) + seq!['\n'] + if r == 2 || r == 5 {
        rule_line()
    } else {
        Seq::empty()
    }
}

/// The first `n` rows, shown.
pub open spec fn rows_text(
    g: Seq<Seq<u8>>,
    show_notes: bool,
    rm: HoodMisSet,
    cm: HoodMisSet,
    bm: HoodMisSet,
    n: nat,
) -> Seq<char>
    decreases n,
{
    if n == 0 {
        Seq::empty()
    } else {
        rows_text(g, show_notes, rm, cm, bm, (n - 1) as nat) + row_text(g, show_notes, rm, cm, bm, n - 1)
    }
}

/// The whole board, shown after an empty line.
pub open spec fn notes_text(
    g: Seq<Seq<u8>>,
    show_notes: bool,
    rm: HoodMisSet,
    cm: HoodMisSet,
    bm: HoodMisSet,
) -> Seq<char> {
    seq!['\n'] + rows_text(g, show_notes, rm, cm, bm, g.len())
}

/// The decimal text of `v`.
pub fn u8_string(v: u8) -> (t: String)
    ensures
        t@ == u8_text(v),
{
    let mut t = String::new();
    if v >= 100 {
        t.append(digit_str(v / 100));
    }
    if v >= 10 {
        t.append(digit_str((v / 10) % 10));
    }
    t.append(digit_str(v % 10));
    assert(t@ =~= u8_text(v));
    t
}

/// The board as text: an empty line, then one line per row, with each empty cell
/// shown with its candidates (the digits that the given sets of its row, column
/// and block all miss) where `show_notes` holds.
pub fn notes_grid_text(grid: &Grid, show_notes: bool, row_mis: HoodMisSet, col_mis: HoodMisSet, blk_mis: HoodMisSet) -> (t: String)
    requires
        show_notes ==> forall|r: int, c: int|
            0 <= r < grid@.len() && 0 <= c < grid@[r]@.len() && #[trigger] grid@[r]@[c] == 0 ==> r < 9 && c < 9,
    ensures
        t@ == notes_text(grid_view(*grid), show_notes, row_mis, col_mis, blk_mis),
{
    let ghost g = grid_view(*grid);
    let mut t = String::new();
    proof {
        reveal_strlit("\n");
    }
    t.append("\n");
    let mut r: usize = 0;
    while r < grid.len()
        invariant
            r <= grid@.len(),
            g == grid_view(*grid),
            show_notes ==> forall|x: int, y: int|
                0 <= x < grid@.len() && 0 <= y < grid@[x]@.len() && #[trigger] grid@[x]@[y] == 0 ==> x < 9 && y < 9,
            t@ == seq!['\n'] + rows_text(g, show_notes, row_mis, col_mis, blk_mis, r as nat),
        decreases grid@.len() - r,
    {
        let ghost before = t@;
        let mut c: usize = 0;
        while c < grid[r].len()
            invariant
                r < grid@.len(),
                c <= grid@[r as int]@.len(),
                g == grid_view(*grid),
                g[r as int] == grid@[r as int]@,
                show_notes ==> forall|x: int, y: int|
                    0 <= x < grid@.len() && 0 <= y < grid@[x]@.len() && #[trigger] grid@[x]@[y] == 0 ==> x < 9 && y
                        < 9,
                t@ == before + row_cells_text(g, show_notes, row_mis, col_mis, blk_mis, r as int, c as nat),
            decreases grid@[r as int]@.len() - c,
        {
            let ghost mid = t@;
            proof {
                reveal_strlit("|");
                reveal_strlit(" ");
                reveal_strlit("  ");
            }
            if c > 0 && c % 3 == 0 {
                t.append("|");
            } else {
                t.append(" ");
            }
            let digit = grid[r][c];
            if digit != 0 {
                t.append(" ");
                let dt = u8_string(digit);
                t.append(dt.as_str());
            } else {
                if show_notes {
                    let b = block_from_rc(r, c);
                    let missing = row_mis[r].inters3(col_mis[c], blk_mis[b]).to_string();
                    t.append(missing.as_str());
                } else {
                    t.append("  ");
                }
            }
            assert(t@ =~= mid + cell_text(g, show_notes, row_mis, col_mis, blk_mis, r as int, c as int));
            c = c + 1;
        }
        proof {
            reveal_strlit("\n");
        }
        t.append("\n");
        if r == 2 || r == 5 {
            t.append(" --------------------------\n");
        }
        assert(t@ =~= seq!['\n'] + rows_text(g, show_notes, row_mis, col_mis, blk_mis, (r + 1) as nat));
        r = r + 1;
    }
    t
}

/// The first `m` cells of a row come first among its first `n` cells.
proof fn lemma_row_cells_prefix(
    g: Seq<Seq<u8>>,
    show_notes: bool,
    rm: HoodMisSet,
    cm: HoodMisSet,
    bm: HoodMisSet,
    r: int,
    m: nat,
    n: nat,
)
    requires
        m <= n,
    ensures
        row_cells_text(g, show_notes, rm, cm, bm, r, m).len() <= row_cells_text(g, show_notes, rm, cm, bm, r, n).len(),
        row_cells_text(g, show_notes, rm, cm, bm, r, n).subrange(
            0,
            row_cells_text(g, show_notes, rm, cm, bm, r, m).len() as int,
        ) == row_cells_text(g, show_notes, rm, cm, bm, r, m),
    decreases n,
{
    if m < n {
        lemma_row_cells_prefix(g, show_notes, rm, cm, bm, r, m, (n - 1) as nat);
        let a = row_cells_text(g, show_notes, rm, cm, bm, r, m);
        let b = row_cells_text(g, show_notes, rm, cm, bm, r, (n - 1) as nat);
        assert((b + cell_text(g, show_notes, rm, cm, bm, r, n - 1)).subrange(0, a.len() as int) =~= b.subrange(
            0,
            a.len() as int,
        ));
    } else {
        assert(row_cells_text(g, show_notes, rm, cm, bm, r, n).subrange(
            0,
            row_cells_text(g, show_notes, rm, cm, bm, r, n).len() as int,
        ) =~= row_cells_text(g, show_notes, rm, cm, bm, r, n));
    }
}

/// The first `m` rows come first among the first `n` rows.
proof fn lemma_rows_prefix(
    g: Seq<Seq<u8>>,
    show_notes: bool,
    rm: HoodMisSet,
    cm: HoodMisSet,
    bm: HoodMisSet,
    m: nat,
    n: nat,
)
    requires
        m <= n,
    ensures
        rows_text(g, show_notes, rm, cm, bm, m).len() <= rows_text(g, show_notes, rm, cm, bm, n).len(),
        rows_text(g, show_notes, rm, cm, bm, n).subrange(0, rows_text(g, show_notes, rm, cm, bm, m).len() as int)
            == rows_text(g, show_notes, rm, cm, bm, m),
    decreases n,
{
    if m < n {
        lemma_rows_prefix(g, show_notes, rm, cm, bm, m, (n - 1) as nat);
        let a = rows_text(g, show_notes, rm, cm, bm, m);
        let b = rows_text(g, show_notes, rm, cm, bm, (n - 1) as nat);
        assert((b + row_text(g, show_notes, rm, cm, bm, n - 1)).subrange(0, a.len() as int) =~= b.subrange(
            0,
            a.len() as int,
        ));
    } else {
        assert(rows_text(g, show_notes, rm, cm, bm, n).subrange(0, rows_text(g, show_notes, rm, cm, bm, n).len() as int)
            =~= rows_text(g, show_notes, rm, cm, bm, n));
    }
}

/// Where a cell is shown: after the empty first line, the rows above it and the
/// cells to its left.
pub open spec fn cell_offset(
    g: Seq<Seq<u8>>,
    show_notes: bool,
    rm: HoodMisSet,
    cm: HoodMisSet,
    bm: HoodMisSet,
    r: int,
    c: int,
) -> int {
    (1 + rows_text(g, show_notes, rm, cm, bm, r as nat).len() + row_cells_text(g, show_notes, rm, cm, bm, r, c as nat).len()) as int
}

/// On a 9x9 board, each cell is shown at its offset.
proof fn lemma_cell_located(
    g: Seq<Seq<u8>>,
    show_notes: bool,
    rm: HoodMisSet,
    cm: HoodMisSet,
    bm: HoodMisSet,
    r: int,
    c: int,
)
    requires
        is_board(g),
        0 <= r < 9,
        0 <= c < 9,
    ensures
        ({
            let t = notes_text(g, show_notes, rm, cm, bm);
            let o = cell_offset(g, show_notes, rm, cm, bm, r, c);
            let cell = cell_text(g, show_notes, rm, cm, bm, r, c);
            &&& o + cell.len() <= t.len()
            &&& t.subrange(o, o + cell.len()) == cell
        }),
{
    let t = notes_text(g, show_notes, rm, cm, bm);
    let cell = cell_text(g, show_notes, rm, cm, bm, r, c);
    let o = cell_offset(g, show_notes, rm, cm, bm, r, c);
    let pr = rows_text(g, show_notes, rm, cm, bm, r as nat);
    let pc = row_cells_text(g, show_notes, rm, cm, bm, r, c as nat);
    let pc1 = row_cells_text(g, show_notes, rm, cm, bm, r, (c + 1) as nat);
    assert(pc1 == pc + cell);
    lemma_row_cells_prefix(g, show_notes, rm, cm, bm, r, (c + 1) as nat, g[r].len());
    let row = row_text(g, show_notes, rm, cm, bm, r);
    let rows1 = rows_text(g, show_notes, rm, cm, bm, (r + 1) as nat);
    assert(rows1 == pr + row);
    lemma_rows_prefix(g, show_notes, rm, cm, bm, (r + 1) as nat, 9);
    let all = rows_text(g, show_notes, rm, cm, bm, 9);
    assert(g.len() == 9);
    assert(t == seq!['\n'] + all);
    let full_cells = row_cells_text(g, show_notes, rm, cm, bm, r, g[r].len());
    assert forall|i: int| 0 <= i < cell.len() implies t[o + i] == cell[i] by {
        assert(full_cells.subrange(0, pc1.len() as int)[pc.len() + i] == pc1[pc.len() + i]);
        assert(pc1[pc.len() + i] == cell[i]);
        assert(full_cells[pc.len() + i] == cell[i]);
        assert(row[pc.len() + i] == full_cells[pc.len() + i]);
        assert(rows1[pr.len() + pc.len() + i] == row[pc.len() + i]);
        assert(all.subrange(0, rows1.len() as int)[pr.len() + pc.len() + i] == rows1[pr.len() + pc.len() + i]);
        assert(all[pr.len() + pc.len() + i] == rows1[pr.len() + pc.len() + i]);
        assert(t[o + i] == all[pr.len() + pc.len() + i]);
    }
    assert(t.subrange(o, o + cell.len()) =~= cell);
}

/// The separator shown before the cell in column `c`: a bar before the fourth
/// and the seventh column, else a space.
pub open spec fn separator(c: int) -> char {
    if c > 0 && c % 3 == 0 {
        '|'
    } else {
        ' '
    }
}

/// With notes, an empty cell of a board shows, after its separator, the
/// candidates of that cell (the digits missing from its row, its column and its
/// block) when the given sets are the board's own missing digits.
pub proof fn lemma_notes_show_candidates(g: Seq<Seq<u8>>, rm: HoodMisSet, cm: HoodMisSet, bm: HoodMisSet, r: int, c: int)
    requires
        is_board(g),
        mis_exact(g, rm, cm, bm),
        0 <= r < 9,
        0 <= c < 9,
        g[r][c] == 0,
    ensures
        ({
            let t = notes_text(g, true, rm, cm, bm);
            let o = cell_offset(g, true, rm, cm, bm, r, c);
            let shown = seq![separator(c)] + set_text(candidates(g, r, c));
            &&& o + shown.len() <= t.len()
            &&& t.subrange(o, o + shown.len()) == shown
        }),
{
    lemma_candidates_from_sets(g, rm, cm, bm, r, c);
    lemma_cell_located(g, true, rm, cm, bm, r, c);
    assert(cell_text(g, true, rm, cm, bm, r, c) == seq![separator(c)] + set_text(candidates(g, r, c)));
}

/// A filled cell holding a digit shows its separator, a space and the digit,
/// with or without notes; without notes an empty cell shows its separator and
/// two spaces.
pub proof fn lemma_cells_show_digits(
    g: Seq<Seq<u8>>,
    show_notes: bool,
    rm: HoodMisSet,
    cm: HoodMisSet,
    bm: HoodMisSet,
    r: int,
    c: int,
)
    requires
        is_board(g),
        0 <= r < 9,
        0 <= c < 9,
        g[r][c] <= 9,
    ensures
        ({
            let t = notes_text(g, show_notes, rm, cm, bm);
            let o = cell_offset(g, show_notes, rm, cm, bm, r, c);
            &&& g[r][c] != 0 ==> o + 3 <= t.len() && t.subrange(o, o + 3) == seq![
                separator(c),
                ' ',
                digit_char(g[r][c] as int),
            ]
            &&& g[r][c] == 0 && !show_notes ==> o + 3 <= t.len() && t.subrange(o, o + 3) == seq![
                separator(c),
                ' ',
                ' ',
            ]
        }),
{
    lemma_cell_located(g, show_notes, rm, cm, bm, r, c);
    let cell = cell_text(g, show_notes, rm, cm, bm, r, c);
    if g[r][c] != 0 {
        assert(cell =~= seq![separator(c), ' ', digit_char(g[r][c] as int)]);
    } else if !show_notes {
        assert(cell =~= seq![separator(c), ' ', ' ']);
    }
}

} // verus!
