use sudoku::{grid_from_csv, solve, Grid};

fn texts(rows: &[Vec<String>]) -> Vec<Vec<&str>> {
    rows.iter().map(|r| r.iter().map(|t| t.as_str()).collect()).collect()
}

#[test]
fn space_separated_file() {
    let text = "# the README puzzle\n\
        ? ? 7 4 9 1 6 ? 5\n\
        2 ? ? ? 6 ? 3 ? 9\n\
        ? ? ? ? ? 7 ? 1 ?\n\
        ? 5 8 6 ? ? ? ? 4\n\
        ? ? 3 ? ? ? ? 9 ?\n\
        ? ? 6 2 ? ? 1 8 7\n\
        9 ? 4 ? 7 ? ? ? 2\n\
        6 7 ? 8 3 ? ? ? ?\n\
        8 1 ? ? 4 5 ? ? ?\n";
    let parsed = grid_from_csv(text.as_bytes()).expect("a puzzle");
    assert_eq!(parsed.grid.len(), 9);
    assert_eq!(parsed.grid[0], vec![0, 0, 7, 4, 9, 1, 6, 0, 5]);
    assert_eq!(parsed.grid[8], vec![8, 1, 0, 0, 4, 5, 0, 0, 0]);
    assert_eq!(texts(&parsed.tokens)[1], vec!["2", "?", "?", "?", "6", "?", "3", "?", "9"]);
    let out = solve(parsed.grid);
    assert_eq!(out.grid[0], vec![3, 8, 7, 4, 9, 1, 6, 2, 5]);
}

#[test]
fn comma_separated_fields_are_trimmed() {
    let text = " 1 , 2,3,?,x ,6,7,8,9\n4,5,6,7,8,9,1,2,3\n";
    let parsed = grid_from_csv(text.as_bytes()).expect("a puzzle");
    let expected: Grid = vec![vec![1, 2, 3, 0, 0, 6, 7, 8, 9], vec![4, 5, 6, 7, 8, 9, 1, 2, 3]];
    assert_eq!(parsed.grid, expected);
    assert_eq!(texts(&parsed.tokens)[0], vec!["1", "2", "3", "?", "x", "6", "7", "8", "9"]);
}

#[test]
fn lines_of_different_lengths_are_refused() {
    let text = "1,2,3,4,5,6,7,8,9\n1,2\n";
    assert!(grid_from_csv(text.as_bytes()).is_none());
}

#[test]
fn an_empty_field_among_nine_is_refused() {
    let text = "1,2,,4,5,6,7,8,9\n";
    assert!(grid_from_csv(text.as_bytes()).is_none());
}

#[test]
fn text_that_is_not_utf8_is_refused() {
    let text: &[u8] = &[b'1', b' ', 0xff, 0xfe, b'\n'];
    assert!(grid_from_csv(text).is_none());
}

#[test]
fn comments_only_give_no_rows() {
    let parsed = grid_from_csv(b"# nothing here\n").expect("no rows");
    assert!(parsed.grid.is_empty());
    assert!(parsed.tokens.is_empty());
}
