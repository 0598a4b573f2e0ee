use sudoku_solver::{Grid, ParseError};

const EXAMPLE: &str = "\
___26_7_1
68__7__9_
19___45__
82_1___4_
__46_29__
_5___3_28
__93___74
_4__5__36
7_3_18___";

fn render(grid: &Grid) -> String {
    let mut lines = Vec::new();
    for y in 0..9 {
        let mut line = String::new();
        for x in 0..9 {
            let t = grid.get_value_str([x, y]);
            if t.is_empty() {
                line.push('_');
            } else {
                line.push_str(&t);
            }
        }
        lines.push(line);
    }
    lines.join("\n")
}

#[test]
fn parse_example() {
    let grid = Grid::from_str(EXAMPLE).unwrap();
    assert_eq!(grid.cells.len(), 81);
    assert_eq!(grid.get_value([0, 0]), None);
    assert_eq!(grid.get_value([3, 0]), Some(2));
    assert_eq!(grid.get_value([4, 0]), Some(6));
    assert_eq!(grid.get_value([0, 1]), Some(6));
    assert_eq!(grid.get_value([0, 8]), Some(7));
    assert_eq!(grid.get_value([8, 8]), None);
}

#[test]
fn parse_round_trip() {
    let grid = Grid::from_str(EXAMPLE).unwrap();
    assert_eq!(render(&grid), EXAMPLE);
    let full = "123456789\n".repeat(9);
    let grid = Grid::from_str(&full).unwrap();
    assert_eq!(render(&grid) + "\n", full);
}

#[test]
fn parse_trims_trailing_whitespace() {
    let text = EXAMPLE.replace('\n', "  \t\r\n");
    let grid = Grid::from_str(&text).unwrap();
    assert_eq!(render(&grid), EXAMPLE);
}

#[test]
fn parse_ignores_lines_after_ninth() {
    let text = format!("{}\nnot a board line", EXAMPLE);
    let grid = Grid::from_str(&text).unwrap();
    assert_eq!(render(&grid), EXAMPLE);
}

#[test]
fn parse_eight_lines() {
    let text: Vec<&str> = EXAMPLE.lines().take(8).collect();
    let r = Grid::from_str(&text.join("\n"));
    assert_eq!(r.unwrap_err(), ParseError::InvalidRowCount(9, 8));
}

#[test]
fn parse_empty_text() {
    assert_eq!(Grid::from_str("").unwrap_err(), ParseError::InvalidRowCount(9, 0));
}

#[test]
fn parse_short_line() {
    let text = EXAMPLE.replace("82_1___4_", "82_1___4");
    let r = Grid::from_str(&text);
    assert_eq!(r.unwrap_err(), ParseError::InvalidLineLength(4, 9, 8));
}

#[test]
fn parse_long_line() {
    let text = EXAMPLE.replace("___26_7_1", "___26_7_12");
    let r = Grid::from_str(&text);
    assert_eq!(r.unwrap_err(), ParseError::InvalidLineLength(1, 9, 10));
}

#[test]
fn parse_invalid_character() {
    let text = EXAMPLE.replace("_5___3_28", "_5_x_3_28");
    let r = Grid::from_str(&text);
    assert_eq!(r.unwrap_err(), ParseError::InvalidCharacter(6, 'x'));
    let text = EXAMPLE.replace("7_3_18___", "7_3_18_0_");
    let r = Grid::from_str(&text);
    assert_eq!(r.unwrap_err(), ParseError::InvalidCharacter(9, '0'));
}

#[test]
fn parse_first_error_wins() {
    let text = EXAMPLE.replace("68__7__9_", "68__x__9_").replace("19___45__", "19");
    let r = Grid::from_str(&text);
    assert_eq!(r.unwrap_err(), ParseError::InvalidCharacter(2, 'x'));
}

#[test]
fn error_messages() {
    assert_eq!(
        ParseError::InvalidLineLength(3, 9, 12).message(),
        "Line 3 didn't match expected line length. Expected: 9, Actual: 12"
    );
    assert_eq!(
        ParseError::InvalidRowCount(9, 8).message(),
        "Amount of rows didn't match expected amount. Expected: 9, Actual: 8"
    );
    assert_eq!(
        ParseError::InvalidCharacter(6, 'x').message(),
        "Line 6 contains an invalid character 'x'"
    );
}

#[test]
fn value_as_text() {
    let grid = Grid::from_str(EXAMPLE).unwrap();
    assert_eq!(grid.get_value_str([3, 0]), "2");
    assert_eq!(grid.get_value_str([8, 0]), "1");
    assert_eq!(grid.get_value_str([0, 0]), "");
}

#[test]
fn first_empty_cell_is_row_major() {
    let grid = Grid::from_str(EXAMPLE).unwrap();
    assert_eq!(grid.get_empty_cell(), Some([0, 0]));
    let text = EXAMPLE.replace("___26_7_1", "345268791");
    let grid = Grid::from_str(&text).unwrap();
    assert_eq!(grid.get_empty_cell(), Some([2, 1]));
    let full = "123456789\n".repeat(9);
    assert_eq!(Grid::from_str(&full).unwrap().get_empty_cell(), None);
}

#[test]
fn candidate_rule_row_and_column() {
    let grid = Grid::from_str(EXAMPLE).unwrap();
    // (0, 0): row 0 holds 2, 6, 7, 1; column 0 holds 6, 1, 8, 7.
    assert!(!grid.check_num([0, 0], 2));
    assert!(!grid.check_num([0, 0], 8));
    assert!(grid.check_num([0, 0], 3));
    assert!(grid.check_num([0, 0], 5));
    // 9 sits in the top-left block but neither in row 0 nor column 0.
    assert!(grid.check_num([0, 0], 9));
}

#[test]
fn rows_and_columns() {
    let grid = Grid::from_str(EXAMPLE).unwrap();
    let row: Vec<Option<u32>> = grid.get_row(0).iter().map(|c| c.value).collect();
    assert_eq!(row, vec![None, None, None, Some(2), Some(6), None, Some(7), None, Some(1)]);
    let col: Vec<Option<u32>> = grid.get_col(0).iter().map(|c| c.value).collect();
    assert_eq!(col, vec![None, Some(6), Some(1), Some(8), None, None, None, None, Some(7)]);
}

#[test]
fn set_and_unset() {
    let mut grid = Grid::from_str(EXAMPLE).unwrap();
    grid.set([0, 0], 4);
    assert_eq!(grid.get_value([0, 0]), Some(4));
    assert!(!grid.check_num([1, 0], 4));
    grid.unset([0, 0]);
    assert_eq!(grid.get_value([0, 0]), None);
}

#[test]
fn cell_new_holds_value() {
    assert_eq!(sudoku_solver::Cell::new(Some(7)).value, Some(7));
    assert_eq!(sudoku_solver::Cell::new(None).value, None);
}

#[test]
fn parse_crlf_lines() {
    let text = EXAMPLE.replace('\n', "\r\n") + "\r\n";
    let grid = Grid::from_str(&text).unwrap();
    assert_eq!(render(&grid), EXAMPLE);
}

#[test]
fn parse_blank_line_counts_as_short_line() {
    let text = EXAMPLE.replace("82_1___4_\n", "\n82_1___4_\n");
    let r = Grid::from_str(&text);
    assert_eq!(r.unwrap_err(), ParseError::InvalidLineLength(4, 9, 0));
}
