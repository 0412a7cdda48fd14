use sudoku::{solve, CellUpdate, Grid, SolveEvent};

fn readme_puzzle() -> Grid {
    vec![
        vec![0, 0, 7, 4, 9, 1, 6, 0, 5],
        vec![2, 0, 0, 0, 6, 0, 3, 0, 9],
        vec![0, 0, 0, 0, 0, 7, 0, 1, 0],
        vec![0, 5, 8, 6, 0, 0, 0, 0, 4],
        vec![0, 0, 3, 0, 0, 0, 0, 9, 0],
        vec![0, 0, 6, 2, 0, 0, 1, 8, 7],
        vec![9, 0, 4, 0, 7, 0, 0, 0, 2],
        vec![6, 7, 0, 8, 3, 0, 0, 0, 0],
        vec![8, 1, 0, 0, 4, 5, 0, 0, 0],
    ]
}

fn readme_solution() -> Grid {
    vec![
        vec![3, 8, 7, 4, 9, 1, 6, 2, 5],
        vec![2, 4, 1, 5, 6, 8, 3, 7, 9],
        vec![5, 6, 9, 3, 2, 7, 4, 1, 8],
        vec![7, 5, 8, 6, 1, 9, 2, 3, 4],
        vec![1, 2, 3, 7, 8, 4, 5, 9, 6],
        vec![4, 9, 6, 2, 5, 3, 1, 8, 7],
        vec![9, 3, 4, 1, 7, 6, 8, 5, 2],
        vec![6, 7, 5, 8, 3, 2, 9, 4, 1],
        vec![8, 1, 2, 9, 4, 5, 7, 6, 3],
    ]
}

fn apply(grid: &Grid, updates: &[CellUpdate]) -> Grid {
    let mut g = grid.clone();
    for u in updates {
        assert_eq!(g[u.row as usize][u.col as usize], 0);
        g[u.row as usize][u.col as usize] = u.digit;
    }
    g
}

fn placed(events: &[SolveEvent]) -> Vec<(u8, u8, u8)> {
    events
        .iter()
        .filter_map(|e| match e {
            SolveEvent::Placed(u) => Some((u.row, u.col, u.digit)),
            _ => None,
        })
        .collect()
}

#[test]
fn solves_the_readme_puzzle() {
    let out = solve(readme_puzzle());
    assert_eq!(out.grid, readme_solution());
    assert_eq!(out.iterations, 3);
    assert_eq!(out.updates.len(), 46);
    assert_eq!(apply(&readme_puzzle(), &out.updates), out.grid);
    let first_pass = out.events.iter().find_map(|e| match e {
        SolveEvent::PassDone { iteration, empty_cells, found } => Some((*iteration, *empty_cells, *found)),
        _ => None,
    });
    assert_eq!(first_pass, Some((1, 46, 36)));
    let ups: Vec<(u8, u8, u8)> = out.updates.iter().map(|u| (u.row, u.col, u.digit)).collect();
    assert_eq!(placed(&out.events), ups);
}

#[test]
fn readme_events_frame_the_run() {
    let out = solve(readme_puzzle());
    let n = out.events.len();
    match &out.events[0] {
        SolveEvent::Notes { board, show_notes, .. } => {
            assert!(!*show_notes);
            assert_eq!(board[0], [0, 0, 7, 4, 9, 1, 6, 0, 5]);
        },
        _ => panic!("the run starts with the board"),
    }
    assert!(matches!(out.events[1], SolveEvent::Notes { show_notes: true, .. }));
    assert!(matches!(out.events[n - 2], SolveEvent::Finished { iterations: 3 }));
    match &out.events[n - 1] {
        SolveEvent::Notes { board, show_notes, row_mis, .. } => {
            assert!(!*show_notes);
            assert_eq!(board[8], [8, 1, 2, 9, 4, 5, 7, 6, 3]);
            assert_eq!(row_mis[0], [false; 9]);
        },
        _ => panic!("the run ends with the board"),
    }
}

#[test]
fn a_full_board_is_left_alone() {
    let out = solve(readme_solution());
    assert_eq!(out.grid, readme_solution());
    assert!(out.updates.is_empty());
    assert_eq!(out.iterations, 1);
    assert!(matches!(out.events[2], SolveEvent::PassDone { iteration: 1, empty_cells: 0, found: 0 }));
    assert_eq!(out.events.len(), 5);
}

#[test]
fn an_empty_board_is_stuck() {
    let empty: Grid = vec![vec![0; 9]; 9];
    let out = solve(empty.clone());
    assert_eq!(out.grid, empty);
    assert!(out.updates.is_empty());
    assert_eq!(out.iterations, 1);
    assert!(matches!(out.events[2], SolveEvent::PassDone { iteration: 1, empty_cells: 81, found: 0 }));
    assert!(matches!(out.events[3], SolveEvent::Stuck { iteration: 1, empty_cells: 81 }));
    assert!(matches!(out.events[4], SolveEvent::Finished { iterations: 1 }));
    assert_eq!(out.events.len(), 6);
}

#[test]
fn one_hole_is_filled_by_its_only_candidate() {
    let mut g = readme_solution();
    g[4][4] = 0;
    let out = solve(g);
    assert_eq!(out.grid, readme_solution());
    assert_eq!(out.updates.len(), 1);
    assert_eq!((out.updates[0].row, out.updates[0].col, out.updates[0].digit), (4, 4, 8));
    assert_eq!(out.iterations, 2);
}

#[test]
fn a_digit_with_one_place_in_its_row_goes_there() {
    // Row 0 holds 1 to 6 at the left; 7 is barred from (0,7) and (0,8) by the
    // 7s in columns 7 and 8, so it can only go to (0,6), which itself still has
    // the candidates 7, 8 and 9.
    let mut g: Grid = vec![vec![0; 9]; 9];
    g[0] = vec![1, 2, 3, 4, 5, 6, 0, 0, 0];
    g[3][7] = 7;
    g[6][8] = 7;
    let out = solve(g.clone());
    assert_eq!(out.grid[0][6], 7);
    assert_eq!(out.updates[0].row, 0);
    assert_eq!(out.updates[0].col, 6);
    assert_eq!(out.updates[0].digit, 7);
    assert!(out.events.iter().any(|e| matches!(e, SolveEvent::EliminationDone { iteration: 1, .. })));
    assert_eq!(apply(&g, &out.updates), out.grid);
}

#[test]
fn a_cell_without_candidates_is_reported() {
    // (0,8) sees 1 to 8 in its row and 9 in its column.
    let mut g: Grid = vec![vec![0; 9]; 9];
    g[0] = vec![1, 2, 3, 4, 5, 6, 7, 8, 0];
    g[5][8] = 9;
    let out = solve(g);
    assert!(out.events.iter().any(|e| matches!(
        e,
        SolveEvent::NoCandidates { iteration: 0, row: 0, col: 8, candidates, .. } if *candidates == [false; 9]
    )));
}

#[test]
fn givens_stay_and_counts_add_up() {
    let mut g = readme_puzzle();
    g[0][0] = 0;
    g[8][1] = 0;
    g[4][7] = 0;
    let out = solve(g.clone());
    for r in 0..9 {
        for c in 0..9 {
            if g[r][c] != 0 {
                assert_eq!(out.grid[r][c], g[r][c]);
            }
        }
    }
    let empties = |x: &Grid| x.iter().flatten().filter(|&&d| d == 0).count();
    assert_eq!(out.updates.len() + empties(&out.grid), empties(&g));
    assert!(out.iterations as usize <= out.updates.len() + 1);
    assert_eq!(out.grid, readme_solution());
}

#[test]
fn placements_come_in_pass_order() {
    let mut g = readme_solution();
    g[0][0] = 0;
    g[0][1] = 0;
    g[8][0] = 0;
    let out = solve(g);
    assert_eq!(placed(&out.events), vec![(0, 1, 8), (8, 0, 8), (0, 0, 3)]);
    assert_eq!(out.grid, readme_solution());
    assert_eq!(out.iterations, 3);
}

#[test]
fn readme_pass_reports() {
    let out = solve(readme_puzzle());
    let passes: Vec<(u32, u32, u32)> = out
        .events
        .iter()
        .filter_map(|e| match e {
            SolveEvent::PassDone { iteration, empty_cells, found } => Some((*iteration, *empty_cells, *found)),
            _ => None,
        })
        .collect();
    assert_eq!(passes.len(), 3);
    assert_eq!(passes[0], (1, 46, 36));
    assert_eq!(passes[2], (3, 0, 0));
    assert!(matches!(out.events[out.events.len() - 2], SolveEvent::Finished { iterations: 3 }));
}
