use vstd::prelude::*;
use crate::board::block_of;
use crate::misset::count_missing;
use crate::rules::{
    block_missing, block_only, candidates, col_missing, col_only, place, row_missing, row_only, CellUpdate,
};
use crate::solver::{board_view, mis_exact, SolveEvent};

verus! {

/// What the solver reports, in mathematical terms.
pub enum Report {
    /// The board, with or without the candidates of its empty cells.
    Notes { board: Seq<Seq<u8>>, show_notes: bool },
    /// An empty cell with no candidate, with the missing digits of its row,
    /// column and block.
    NoCandidates {
        iteration: int,
        row: int,
        col: int,
        candidates: Seq<bool>,
        row_set: Seq<bool>,
        col_set: Seq<bool>,
        blk_set: Seq<bool>,
    },
    /// A digit written into a cell.
    Placed { row: int, col: int, digit: int },
    /// End of a pass of the candidate inference.
    PassDone { iteration: int, empty_cells: int, found: int },
    /// The iteration limit was met.
    IterationLimit { iteration: int },
    /// End of a pass of the elimination inference that wrote digits.
    EliminationDone { iteration: int, empty_cells: int, found: int },
    /// Neither inference wrote a digit.
    Stuck { iteration: int, empty_cells: int },
    /// The number of iterations used.
    Finished { iterations: int },
}

/// The event `e` is the report `r`; the missing-digit sets of a board shown
/// with notes are those of that board.
pub open spec fn event_matches(e: SolveEvent, r: Report) -> bool {
    match (e, r) {
        (
            SolveEvent::Notes { board, show_notes, row_mis, col_mis, blk_mis },
            Report::Notes { board: b, show_notes: s },
        ) => board_view(board) == b && show_notes == s && mis_exact(b, row_mis, col_mis, blk_mis),
        (
            SolveEvent::NoCandidates { iteration, row, col, candidates, row_set, col_set, blk_set },
            Report::NoCandidates { iteration: i, row: r, col: c, candidates: m, row_set: rs, col_set: cs, blk_set: bs },
        ) => iteration == i && row == r && col == c && candidates@ == m && row_set@ == rs && col_set@ == cs
            && blk_set@ == bs,
        (SolveEvent::Placed(u), Report::Placed { row, col, digit }) => u.row == row && u.col == col && u.digit
            == digit,
        (SolveEvent::PassDone { iteration, empty_cells, found }, Report::PassDone { iteration: i, empty_cells: e, found: f }) =>
            iteration == i && empty_cells == e && found == f,
        (SolveEvent::IterationLimit { iteration }, Report::IterationLimit { iteration: i }) => iteration == i,
        (
            SolveEvent::EliminationDone { iteration, empty_cells, found },
            Report::EliminationDone { iteration: i, empty_cells: e, found: f },
        ) => iteration == i && empty_cells == e && found == f,
        (SolveEvent::Stuck { iteration, empty_cells }, Report::Stuck { iteration: i, empty_cells: e }) => iteration == i
            && empty_cells == e,
        (SolveEvent::Finished { iterations }, Report::Finished { iterations: i }) => iterations == i,
        _ => false,
    }
}

/// The events `es` are the reports `rs`, one by one.
pub open spec fn events_match(es: Seq<SolveEvent>, rs: Seq<Report>) -> bool {
    &&& es.len() == rs.len()
    &&& forall|i: int| 0 <= i < es.len() ==> event_matches(#[trigger] es[i], rs[i])
}

/// The state of a pass after some cells: the board, the reports so far, the
/// empty cells met and the digits written.
pub struct PassState {
    pub board: Seq<Seq<u8>>,
    pub reports: Seq<Report>,
    pub empty_cells: nat,
    pub found: nat,
}

/// The digit of a set that marks exactly one.
pub open spec fn sole_digit(s: Seq<bool>) -> int {
    (choose|i: int| 0 <= i < 9 && s[i]) + 1
}

/// `g` with `d` written at (`r`, `c`).
pub open spec fn write(g: Seq<Seq<u8>>, r: int, c: int, d: int) -> Seq<Seq<u8>> {
    place(g, CellUpdate { row: r as u8, col: c as u8, digit: d as u8 })
}

/// The candidate inference at the `k`-th cell (row by row): an empty cell of
/// `grid`, the board as the pass began, is counted; a cell with no candidate in
/// the current board is reported; a cell with one candidate gets it.
pub open spec fn candidate_step(grid: Seq<Seq<u8>>, iteration: int, st: PassState, k: int) -> PassState {
    let r = k / 9;
    let c = k % 9;
    if grid[r][c] != 0 {
        st
    } else {
        let m = candidates(st.board, r, c);
        let reports = if count_missing(m) == 0 {
            st.reports.push(
                Report::NoCandidates {
                    iteration,
                    row: r,
                    col: c,
                    candidates: m,
                    row_set: row_missing(st.board, r),
                    col_set: col_missing(st.board, c),
                    blk_set: block_missing(st.board, block_of(r, c)),
                },
            )
        } else {
            st.reports
        };
        if count_missing(m) == 1 {
            let d = sole_digit(m);
            PassState {
                board: write(st.board, r, c, d),
                reports: reports.push(Report::Placed { row: r, col: c, digit: d }),
                empty_cells: st.empty_cells + 1,
                found: st.found + 1,
            }
        } else {
            PassState { board: st.board, reports, empty_cells: st.empty_cells + 1, found: st.found }
        }
    }
}

/// The candidate pass over the first `n` cells of `grid`.
pub open spec fn candidate_pass_upto(grid: Seq<Seq<u8>>, iteration: int, n: nat) -> PassState
    decreases n,
{
    if n == 0 {
        PassState { board: grid, reports: Seq::empty(), empty_cells: 0, found: 0 }
    } else {
        candidate_step(grid, iteration, candidate_pass_upto(grid, iteration, (n - 1) as nat), n - 1)
    }
}

/// The digits that the elimination inference offers for (`r`, `c`): those that
/// no other empty cell of its row can take, if that is a single digit; else
/// those of its column, if that is a single digit; else those of its block.
pub open spec fn elimination_digits(g: Seq<Seq<u8>>, r: int, c: int) -> Seq<bool> {
    if count_missing(row_only(g, r, c)) == 1 {
        row_only(g, r, c)
    } else if count_missing(col_only(g, r, c)) == 1 {
        col_only(g, r, c)
    } else {
        block_only(g, r, c)
    }
}

/// The elimination inference at the `k`-th cell of the current board.
pub open spec fn elimination_step(st: PassState, k: int) -> PassState {
    let r = k / 9;
    let c = k % 9;
    if st.board[r][c] != 0 {
        st
    } else {
        let ms = elimination_digits(st.board, r, c);
        if count_missing(ms) == 1 {
            let d = sole_digit(ms);
            PassState {
                board: write(st.board, r, c, d),
                reports: st.reports.push(Report::Placed { row: r, col: c, digit: d }),
                empty_cells: st.empty_cells + 1,
                found: st.found + 1,
            }
        } else {
            PassState { board: st.board, reports: st.reports, empty_cells: st.empty_cells + 1, found: st.found }
        }
    }
}

/// The elimination pass over the first `n` cells of `g`.
pub open spec fn elimination_pass_upto(g: Seq<Seq<u8>>, n: nat) -> PassState
    decreases n,
{
    if n == 0 {
        PassState { board: g, reports: Seq::empty(), empty_cells: 0, found: 0 }
    } else {
        elimination_step(elimination_pass_upto(g, (n - 1) as nat), n - 1)
    }
}

/// Where a run ends: its reports, its last board and its iteration count.
pub struct RunResult {
    pub reports: Seq<Report>,
    pub board: Seq<Seq<u8>>,
    pub iterations: int,
}

/// The iterations of the solver from board `g`, after `loop_count` iterations.
/// Each shows the board with candidates and runs the candidate pass; it gives
/// up after 100 iterations; if the pass wrote nothing and empty cells remain,
/// the elimination pass runs. The run stops when no empty cell is left or when
/// neither pass wrote a digit, and goes on otherwise.
pub open spec fn run_from(g: Seq<Seq<u8>>, loop_count: nat) -> RunResult
    decreases 101 - loop_count,
{
    let notes = seq![Report::Notes { board: g, show_notes: true }];
    let p1 = candidate_pass_upto(g, loop_count as int, 81);
    let lc: int = loop_count as int + 1;
    if lc > 100 {
        RunResult {
            reports: notes + p1.reports + seq![Report::IterationLimit { iteration: lc }],
            board: p1.board,
            iterations: lc,
        }
    } else {
        let first = notes + p1.reports + seq![
            Report::PassDone { iteration: lc, empty_cells: p1.empty_cells as int, found: p1.found as int },
        ];
        let second = if p1.empty_cells > 0 && p1.found == 0 {
            elimination_pass_upto(p1.board, 81)
        } else {
            p1
        };
        let reports = if p1.empty_cells > 0 && p1.found == 0 {
            first + second.reports + if second.found > 0 {
                seq![
                    Report::EliminationDone {
                        iteration: lc,
                        empty_cells: second.empty_cells as int,
                        found: second.found as int,
                    },
                ]
            } else {
                Seq::empty()
            }
        } else {
            first
        };
        if second.empty_cells > 0 && second.found == 0 {
            RunResult {
                reports: reports + seq![Report::Stuck { iteration: lc, empty_cells: second.empty_cells as int }],
                board: second.board,
                iterations: lc,
            }
        } else if second.empty_cells == 0 {
            RunResult { reports, board: second.board, iterations: lc }
        } else {
            let rest = run_from(second.board, lc as nat);
            RunResult { reports: reports + rest.reports, board: rest.board, iterations: rest.iterations }
        }
    }
}

/// The whole run of the solver on `input`: the board without notes, the
/// iterations, the number of iterations, and the last board without notes.
pub open spec fn solve_run(input: Seq<Seq<u8>>) -> RunResult {
    let run = run_from(input, 0);
    RunResult {
        reports: seq![Report::Notes { board: input, show_notes: false }] + run.reports + seq![
            Report::Finished { iterations: run.iterations },
            Report::Notes { board: run.board, show_notes: false },
        ],
        board: run.board,
        iterations: run.iterations,
    }
}

/// Adding a matching event to matching events keeps them matching.
pub proof fn lemma_events_push(es: Seq<SolveEvent>, n: int, rs: Seq<Report>, e: SolveEvent, r: Report)
    requires
        0 <= n <= es.len(),
        events_match(es.skip(n), rs),
        event_matches(e, r),
    ensures
        events_match(es.push(e).skip(n), rs.push(r)),
{
    assert(es.push(e).skip(n) =~= es.skip(n).push(e));
}

} // verus!
