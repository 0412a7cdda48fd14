use sudoku::{
    cell_from_text, notes_grid_text, record_row, record_tokens, row_from_tokens, solve, u8_string, Grid,
    HoodMisSet, HoodMisSetOps, SolveEvent,
};

fn readme_puzzle() -> Grid {
    vec![
        vec![0, 0, 7, 4, 9, 1, 6, 0, 5],
        vec![2, 0, 0, 0, 6, 0, 3, 0, 9],
        vec![0, 0, 0, 0, 0, 7, 0, 1, 0],
        vec![0, 5, 8, 6, 0, 0, 0, 0, 4],
        vec![0, 0, 3, 0, 0, 0, 0, 9, 0],
        vec![0, 0, 6, 2, 0, 0, 1, 8, 7],
        vec![9, 0, 4, 0, 7, 0, 0, 0, 2],
        vec![6, 7, 0, 8, 3, 0, 0, 0, 0],
        vec![8, 1, 0, 0, 4, 5, 0, 0, 0],
    ]
}

#[test]
fn board_text_matches_the_readme() {
    let all = HoodMisSet::new();
    let text = notes_grid_text(&readme_puzzle(), false, all, all, all);
    let lines: Vec<&str> = text.lines().map(|l| l.trim_end()).collect();
    let expected = vec![
        "",
        "        7| 4  9  1| 6     5",
        "  2      |    6   | 3     9",
        "         |       7|    1",
        " --------------------------",
        "     5  8| 6      |       4",
        "        3|        |    9",
        "        6| 2      | 1  8  7",
        " --------------------------",
        "  9     4|    7   |       2",
        "  6  7   | 8  3   |",
        "  8  1   |    4  5|",
    ];
    assert_eq!(lines, expected);
    assert!(text.starts_with('\n'));
    assert!(text.ends_with("|        \n"));
}

#[test]
fn notes_show_candidates() {
    let out = solve(readme_puzzle());
    let (row_mis, col_mis, blk_mis) = match &out.events[0] {
        SolveEvent::Notes { row_mis, col_mis, blk_mis, .. } => (*row_mis, *col_mis, *blk_mis),
        _ => panic!("the run starts with the board"),
    };
    let text = notes_grid_text(&readme_puzzle(), true, row_mis, col_mis, blk_mis);
    let first = text.lines().nth(1).unwrap();
    assert_eq!(first, " {3} {3,8}  7| 4  9  1| 6 {2}  5");
}

#[test]
fn ragged_and_large_cells_show_without_notes() {
    let g: Grid = vec![vec![12, 0, 255], vec![], vec![1, 2, 3, 4]];
    let all = HoodMisSet::new();
    let text = notes_grid_text(&g, false, all, all, all);
    assert_eq!(text, "\n  12     255\n\n  1  2  3| 4\n --------------------------\n");
}

#[test]
fn decimal_text() {
    assert_eq!(u8_string(0), "0");
    assert_eq!(u8_string(7), "7");
    assert_eq!(u8_string(10), "10");
    assert_eq!(u8_string(99), "99");
    assert_eq!(u8_string(100), "100");
    assert_eq!(u8_string(255), "255");
}

#[test]
fn fields_to_cells() {
    assert_eq!(cell_from_text("5"), 5);
    assert_eq!(cell_from_text("1"), 1);
    assert_eq!(cell_from_text("9"), 9);
    assert_eq!(cell_from_text("?"), 0);
    assert_eq!(cell_from_text("0"), 0);
    assert_eq!(cell_from_text("x"), 0);
    assert_eq!(cell_from_text(":"), 0);
    assert_eq!(cell_from_text("42"), 4);
    assert_eq!(cell_from_text("é"), 0);
}

#[test]
fn comma_separated_line() {
    let fields: Vec<String> = ["1", "?", "3", "x", "5", "6", "7", "8", "9"].iter().map(|s| s.to_string()).collect();
    assert_eq!(record_tokens(&fields), fields);
    assert_eq!(record_row(&fields), vec![1, 0, 3, 0, 5, 6, 7, 8, 9]);
}

#[test]
fn space_separated_line() {
    let fields = vec!["  1 2 ?   4 5\t6 7 8 9 ".to_string()];
    let tokens = record_tokens(&fields);
    assert_eq!(tokens, vec!["1", "2", "?", "4", "5", "6", "7", "8", "9"]);
    assert_eq!(row_from_tokens(&tokens), vec![1, 2, 0, 4, 5, 6, 7, 8, 9]);
    assert_eq!(record_row(&fields), vec![1, 2, 0, 4, 5, 6, 7, 8, 9]);
    let short = vec!["7 ? 3".to_string(), "ignored".to_string()];
    assert_eq!(record_row(&short), vec![7, 0, 3]);
}

#[test]
fn unicode_whitespace_separates_cells() {
    let fields = vec!["\u{2003}1\u{00A0}2\u{3000}3\u{2028}?".to_string()];
    assert_eq!(record_tokens(&fields), vec!["1", "2", "3", "?"]);
    assert_eq!(record_row(&fields), vec![1, 2, 3, 0]);
    let joined = vec!["1\u{200B}2 3".to_string()];
    assert_eq!(record_tokens(&joined), vec!["1\u{200B}2", "3"]);
    assert_eq!(record_row(&joined), vec![1, 3]);
}
