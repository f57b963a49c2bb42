use sudoku::cell_value::CellValue;
use sudoku::cell_value::clamp_value;
use sudoku::grid::Grid;
use sudoku::grid::get_box_indices;
use sudoku::grid::get_box_values;
use sudoku::grid::get_possible_values;
use sudoku::grid::is_solved;
use sudoku::solver::solve;
use sudoku::solver::SolveError;
use sudoku::text::print_grid;
use sudoku::text::read_input;
use sudoku::text::InputError;

fn n(v: u8) -> Option<CellValue> {
    CellValue::new(v)
}

const PUZZLE: &str = "_ 6 2 _ 9 8 1 _ 4\n\
                      5 _ _ 2 _ 1 _ 9 _\n\
                      _ 8 _ _ _ 3 _ 5 7\n\
                      4 _ 1 7 _ _ _ 8 _\n\
                      _ _ _ _ _ _ _ _ _\n\
                      _ 7 _ _ _ 9 6 _ 2\n\
                      3 1 _ 9 _ _ _ 6 _\n\
                      _ 5 _ 6 _ 4 _ _ 9\n\
                      6 _ 8 3 1 _ 4 2 _\n";

const SOLUTION: &str = "7 6 2 5 9 8 1 3 4\n\
                        5 4 3 2 7 1 8 9 6\n\
                        1 8 9 4 6 3 2 5 7\n\
                        4 2 1 7 5 6 9 8 3\n\
                        9 3 6 8 4 2 5 7 1\n\
                        8 7 5 1 3 9 6 4 2\n\
                        3 1 4 9 2 5 7 6 8\n\
                        2 5 7 6 8 4 3 1 9\n\
                        6 9 8 3 1 7 4 2 5\n";

#[test]
fn read_input_should_split_by_whitespace_and_treat_non_numeric_values_as_empties() {
    let input = "_ 6 2 _ 9 8 1 _ 4\n\
                        5 _ _ 2 _ 1 _ 9 _\n\
                        _ 8 _ _ _ 3 _ 5 7\n\
                        4 _ 1 7 _ _ _ 8 _\n\
                        _ _ _ _ _ _ _ _ _\n\
                        _ 7 _ _ _ 9 6 _ 2\n\
                        3 1 _ 9 _ _ _ 6 _\n\
                        _ 5 _ 6 _ 4 _ _ 9\n\
                        6 _ 8 3 1 _ 4 2 _\n";

    let expected_output = [
        [None, n(6), n(2), None, n(9), n(8), n(1), None, n(4)],
        [n(5), None, None, n(2), None, n(1), None, n(9), None],
        [None, n(8), None, None, None, n(3), None, n(5), n(7)],
        [n(4), None, n(1), n(7), None, None, None, n(8), None],
        [None, None, None, None, None, None, None, None, None],
        [None, n(7), None, None, None, n(9), n(6), None, n(2)],
        [n(3), n(1), None, n(9), None, None, None, n(6), None],
        [None, n(5), None, n(6), None, n(4), None, None, n(9)],
        [n(6), None, n(8), n(3), n(1), None, n(4), n(2), None],
    ];

    let output = read_input(input).unwrap();

    for row in 0..9 {
        for col in 0..9 {
            assert_eq!(expected_output[row][col], output.get(row, col));
        }
    }
}

#[test]
fn solve_should_complete_successfully() {
    let grids = [
        (
            "_ 6 2 _ 9 8 1 _ 4\n\
            5 _ _ 2 _ 1 _ 9 _\n\
            _ 8 _ _ _ 3 _ 5 7\n\
            4 _ 1 7 _ _ _ 8 _\n\
            _ _ _ _ _ _ _ _ _\n\
            _ 7 _ _ _ 9 6 _ 2\n\
            3 1 _ 9 _ _ _ 6 _\n\
            _ 5 _ 6 _ 4 _ _ 9\n\
            6 _ 8 3 1 _ 4 2 _\n",
            "7 6 2 5 9 8 1 3 4\n\
            5 4 3 2 7 1 8 9 6\n\
            1 8 9 4 6 3 2 5 7\n\
            4 2 1 7 5 6 9 8 3\n\
            9 3 6 8 4 2 5 7 1\n\
            8 7 5 1 3 9 6 4 2\n\
            3 1 4 9 2 5 7 6 8\n\
            2 5 7 6 8 4 3 1 9\n\
            6 9 8 3 1 7 4 2 5\n",
        ),
        (
            "_ 6 7 5 2 _ _ _ _\n\
            1 _ _ 9 4 _ 7 _ _\n\
            _ _ 4 _ _ _ _ 1 _\n\
            9 _ _ _ 8 7 _ 5 3\n\
            _ 8 6 _ 3 _ 9 7 _\n\
            5 7 _ 2 9 _ _ _ 4\n\
            _ 5 _ _ _ _ 4 _ _\n\
            _ _ 1 _ 7 4 _ _ 8\n\
            _ _ _ _ 5 9 2 6 _\n",
            "8 6 7 5 2 1 3 4 9\n\
            1 3 5 9 4 8 7 2 6\n\
            2 9 4 7 6 3 8 1 5\n\
            9 1 2 4 8 7 6 5 3\n\
            4 8 6 1 3 5 9 7 2\n\
            5 7 3 2 9 6 1 8 4\n\
            6 5 9 8 1 2 4 3 7\n\
            3 2 1 6 7 4 5 9 8\n\
            7 4 8 3 5 9 2 6 1\n",
        ),
        (
            "9 _ _ _ _ 7 _ _ 3\n\
            _ _ 3 _ _ 1 8 _ _\n\
            _ _ _ _ 8 _ _ _ 7\n\
            7 _ _ _ _ _ 5 _ _\n\
            4 _ 8 _ 5 _ 7 _ 2\n\
            _ _ 2 _ _ _ _ _ 1\n\
            5 _ _ _ 9 _ _ _ _\n\
            _ _ 1 7 _ _ 2 _ _\n\
            2 _ _ 6 _ _ _ _ 4\n",
            "9 8 5 2 6 7 4 1 3\n\
            6 7 3 9 4 1 8 2 5\n\
            1 2 4 5 8 3 6 9 7\n\
            7 1 9 3 2 4 5 8 6\n\
            4 6 8 1 5 9 7 3 2\n\
            3 5 2 8 7 6 9 4 1\n\
            5 3 6 4 9 2 1 7 8\n\
            8 4 1 7 3 5 2 6 9\n\
            2 9 7 6 1 8 3 5 4\n",
        ),
        (
            "_ _ _ _ _ _ _ 2 5\n\
            _ 9 4 _ 2 _ _ _ _\n\
            5 _ 7 _ _ 3 _ _ 1\n\
            1 _ _ _ _ 5 7 _ _\n\
            _ 3 _ _ _ _ _ 4 _\n\
            _ _ 8 4 _ _ _ _ 9\n\
            4 _ _ 7 _ _ 8 _ 2\n\
            _ _ _ _ 5 _ 9 1 _\n\
            2 6 _ _ _ _ _ _ _\n",
            "8 1 6 9 4 7 3 2 5\n\
            3 9 4 5 2 1 6 8 7\n\
            5 2 7 6 8 3 4 9 1\n\
            1 4 2 8 9 5 7 6 3\n\
            9 3 5 1 7 6 2 4 8\n\
            6 7 8 4 3 2 1 5 9\n\
            4 5 1 7 6 9 8 3 2\n\
            7 8 3 2 5 4 9 1 6\n\
            2 6 9 3 1 8 5 7 4\n",
        ),
        (
            "4 _ _ _ _ _ _ _ _\n\
            _ _ _ 2 1 8 _ 7 _\n\
            7 _ _ _ 9 _ _ _ 2\n\
            _ _ 6 _ 3 _ 8 _ 4\n\
            1 _ _ _ _ _ _ 2 _\n\
            _ _ 5 _ _ 7 _ _ _\n\
            _ 1 _ _ 6 _ _ _ _\n\
            _ 6 _ _ 8 5 _ _ _\n\
            _ _ 9 _ _ _ _ _ 1\n",
            "4 8 2 7 5 3 9 1 6\n\
            6 9 3 2 1 8 4 7 5\n\
            7 5 1 4 9 6 3 8 2\n\
            2 7 6 5 3 1 8 9 4\n\
            1 3 8 6 4 9 5 2 7\n\
            9 4 5 8 2 7 1 6 3\n\
            5 1 4 9 6 2 7 3 8\n\
            3 6 7 1 8 5 2 4 9\n\
            8 2 9 3 7 4 6 5 1\n",
        ),
        (
            "2 _ _ _ _ 8 _ 4 5\n\
            _ 8 _ 6 _ 7 _ _ _\n\
            9 _ 1 _ _ _ 3 _ _\n\
            7 _ _ 3 _ _ _ _ _\n\
            _ _ 8 _ _ 4 1 7 6\n\
            _ _ 4 1 _ _ 8 _ _\n\
            5 2 _ _ 9 _ _ _ _\n\
            _ 3 _ _ 2 _ _ 5 _\n\
            _ 4 _ _ 6 _ 9 _ 3\n",
            "2 6 3 9 1 8 7 4 5\n\
            4 8 5 6 3 7 2 1 9\n\
            9 7 1 5 4 2 3 6 8\n\
            7 1 2 3 8 6 5 9 4\n\
            3 9 8 2 5 4 1 7 6\n\
            6 5 4 1 7 9 8 3 2\n\
            5 2 6 7 9 3 4 8 1\n\
            8 3 9 4 2 1 6 5 7\n\
            1 4 7 8 6 5 9 2 3\n",
        ),
        (
            "_ _ _ _ 9 6 _ _ _\n\
            _ _ _ 3 _ 2 _ 8 5\n\
            2 _ 4 _ _ 7 _ _ _\n\
            6 _ _ _ 7 _ _ _ _\n\
            9 4 _ _ _ 3 7 _ _\n\
            _ _ _ _ _ _ _ 2 _\n\
            _ 6 9 _ _ _ _ 4 8\n\
            _ _ _ 5 3 _ _ _ 7\n\
            _ 2 _ _ _ _ _ 5 _\n",
            "8 5 3 4 9 6 1 7 2\n\
            7 9 6 3 1 2 4 8 5\n\
            2 1 4 8 5 7 6 3 9\n\
            6 3 2 1 7 5 8 9 4\n\
            9 4 5 2 8 3 7 1 6\n\
            1 7 8 9 6 4 5 2 3\n\
            5 6 9 7 2 1 3 4 8\n\
            4 8 1 5 3 9 2 6 7\n\
            3 2 7 6 4 8 9 5 1\n",
        ),
    ];

    for (input, expected_output) in grids {
        let parsed = read_input(input).unwrap();
        let solved = solve(parsed).unwrap();

        assert_eq!(expected_output, print_grid(&solved));
    }
}

#[test]
fn concrete_scenario_solves_to_expected_grid() {
    let parsed = read_input(PUZZLE).unwrap();
    let solved = solve(parsed).unwrap();
    assert_eq!(SOLUTION, print_grid(&solved));
}

#[test]
fn round_trip_render_then_parse_gives_same_grid() {
    let parsed = read_input(PUZZLE).unwrap();
    let rendered = print_grid(&parsed);
    let reparsed = read_input(rendered.as_str()).unwrap();
    assert_eq!(parsed, reparsed);
}

#[test]
fn candidates_exclude_row_column_and_box() {
    let grid = read_input(PUZZLE).unwrap();
    // cell (0, 0) is unfilled; its row holds {6,2,9,8,1,4}, its column
    // {5,4,3,6}, its box {6,2,5,8}
    let candidates = get_possible_values(&grid, 0, 0);
    let expected = [None, None, None, None, None, None, n(7), None, None];
    assert_eq!(expected, candidates);
    for d in 1..=9u8 {
        let in_neighborhood = [1, 2, 3, 4, 5, 6, 8, 9].contains(&d);
        assert_eq!(candidates[(d - 1) as usize].is_some(), !in_neighborhood);
    }
}

#[test]
fn solver_is_idempotent_on_solved_input() {
    let complete = read_input(SOLUTION).unwrap();
    assert!(is_solved(&complete));
    let solved = solve(complete).unwrap();
    assert_eq!(complete, solved);
}

#[test]
fn solver_is_deterministic() {
    let parsed = read_input(PUZZLE).unwrap();
    let first = solve(parsed).unwrap();
    let second = solve(parsed).unwrap();
    assert_eq!(first, second);
}

#[test]
fn token_ten_fails_with_data_error_before_solving() {
    let bad_first = "10 6 2 _ 9 8 1 _ 4\n\
                     5 _ _ 2 _ 1 _ 9 _\n\
                     _ 8 _ _ _ 3 _ 5 7\n\
                     4 _ 1 7 _ _ _ 8 _\n\
                     _ _ _ _ _ _ _ _ _\n\
                     _ 7 _ _ _ 9 6 _ 2\n\
                     3 1 _ 9 _ _ _ 6 _\n\
                     _ 5 _ 6 _ 4 _ _ 9\n\
                     6 _ 8 3 1 _ 4 2 _\n";
    assert_eq!(read_input(bad_first), Err(InputError::ValueOutOfRange));

    let bad_last = "_ 6 2 _ 9 8 1 _ 4\n\
                    5 _ _ 2 _ 1 _ 9 _\n\
                    _ 8 _ _ _ 3 _ 5 7\n\
                    4 _ 1 7 _ _ _ 8 _\n\
                    _ _ _ _ _ _ _ _ _\n\
                    _ 7 _ _ _ 9 6 _ 2\n\
                    3 1 _ 9 _ _ _ 6 _\n\
                    _ 5 _ 6 _ 4 _ _ 9\n\
                    6 _ 8 3 1 _ 4 2 10\n";
    assert_eq!(read_input(bad_last), Err(InputError::ValueOutOfRange));
}

#[test]
fn numeric_tokens_outside_the_digit_range_fail_with_data_error() {
    let zero_token = "_ 6 2 _ 9 8 1 _ 4\n\
                      5 _ _ 2 _ 1 _ 9 _\n\
                      _ 8 _ _ _ 3 _ 5 7\n\
                      4 _ 1 7 _ _ _ 8 _\n\
                      _ _ _ _ 0 _ _ _ _\n\
                      _ 7 _ _ _ 9 6 _ 2\n\
                      3 1 _ 9 _ _ _ 6 _\n\
                      _ 5 _ 6 _ 4 _ _ 9\n\
                      6 _ 8 3 1 _ 4 2 _\n";
    assert_eq!(read_input(zero_token), Err(InputError::ValueOutOfRange));

    let big_token = "256 6 2 _ 9 8 1 _ 4\n";
    assert_eq!(read_input(big_token), Err(InputError::ValueOutOfRange));

    let huge_token = "_ 6 2 99999999999999999999 9 8 1 _ 4\n";
    assert_eq!(read_input(huge_token), Err(InputError::ValueOutOfRange));

    let padded_zero = "+0 6 2 _ 9 8 1 _ 4\n";
    assert_eq!(read_input(padded_zero), Err(InputError::ValueOutOfRange));

    let zero_run = "000 6 2 _ 9 8 1 _ 4\n";
    assert_eq!(read_input(zero_run), Err(InputError::ValueOutOfRange));
}

#[test]
fn wrong_token_count_fails_with_data_error() {
    let short_line = "_ 6 2 _ 9 8 1 _\n\
                      5 _ _ 2 _ 1 _ 9 _\n\
                      _ 8 _ _ _ 3 _ 5 7\n\
                      4 _ 1 7 _ _ _ 8 _\n\
                      _ _ _ _ _ _ _ _ _\n\
                      _ 7 _ _ _ 9 6 _ 2\n\
                      3 1 _ 9 _ _ _ 6 _\n\
                      _ 5 _ 6 _ 4 _ _ 9\n\
                      6 _ 8 3 1 _ 4 2 _\n";
    assert_eq!(read_input(short_line), Err(InputError::WrongValueCount));

    let long_line = "_ 6 2 _ 9 8 1 _ 4 4\n";
    assert_eq!(read_input(long_line), Err(InputError::WrongValueCount));

    assert_eq!(read_input(""), Err(InputError::WrongValueCount));

    let eight_lines = "_ 6 2 _ 9 8 1 _ 4\n\
                       5 _ _ 2 _ 1 _ 9 _\n\
                       _ 8 _ _ _ 3 _ 5 7\n\
                       4 _ 1 7 _ _ _ 8 _\n\
                       _ _ _ _ _ _ _ _ _\n\
                       _ 7 _ _ _ 9 6 _ 2\n\
                       3 1 _ 9 _ _ _ 6 _\n\
                       _ 5 _ 6 _ 4 _ _ 9\n";
    assert_eq!(read_input(eight_lines), Err(InputError::WrongValueCount));
}

#[test]
fn dead_end_cell_has_empty_candidate_set_and_solve_fails() {
    // leave (0, 0) unfilled while its row, column, and box already hold
    // all nine digits
    let mut grid = Grid::new();
    grid = grid.with_cell(0, 3, n(1).unwrap());
    grid = grid.with_cell(0, 4, n(2).unwrap());
    grid = grid.with_cell(0, 5, n(3).unwrap());
    grid = grid.with_cell(3, 0, n(4).unwrap());
    grid = grid.with_cell(4, 0, n(5).unwrap());
    grid = grid.with_cell(5, 0, n(6).unwrap());
    grid = grid.with_cell(1, 1, n(7).unwrap());
    grid = grid.with_cell(1, 2, n(8).unwrap());
    grid = grid.with_cell(2, 1, n(9).unwrap());

    let candidates = get_possible_values(&grid, 0, 0);
    assert!(candidates.iter().all(|c| c.is_none()));

    assert_eq!(solve(grid), Err(SolveError::Unsolvable));
}

#[test]
fn cell_value_new_accepts_only_digits() {
    assert_eq!(CellValue::new(0), None);
    for v in 1..=9u8 {
        let cell = CellValue::new(v).unwrap();
        assert_eq!(cell.get(), v);
    }
    assert_eq!(CellValue::new(10), None);
    assert_eq!(CellValue::new(255), None);
}

#[test]
fn clamp_value_matches_new() {
    for v in 0..=255u8 {
        assert_eq!(clamp_value(v), CellValue::new(v));
    }
}

#[test]
fn cell_value_from_str_parses_like_a_nonzero_byte() {
    assert_eq!(CellValue::from_str("5"), CellValue::new(5));
    assert_eq!(CellValue::from_str("9"), CellValue::new(9));
    assert_eq!(CellValue::from_str("+3"), CellValue::new(3));
    assert_eq!(CellValue::from_str("09"), CellValue::new(9));
    assert_eq!(CellValue::from_str("10"), None);
    assert_eq!(CellValue::from_str("255"), None);
    assert_eq!(CellValue::from_str("256"), None);
    assert_eq!(CellValue::from_str("0"), None);
    assert_eq!(CellValue::from_str(""), None);
    assert_eq!(CellValue::from_str("+"), None);
    assert_eq!(CellValue::from_str("x"), None);
    assert_eq!(CellValue::from_str("4x"), None);
    assert_eq!(CellValue::from_str("_"), None);
}

#[test]
fn box_indices_partition_into_three_bands() {
    for i in 0..3 {
        assert_eq!(get_box_indices(i), (0, 3));
    }
    for i in 3..6 {
        assert_eq!(get_box_indices(i), (3, 6));
    }
    for i in 6..9 {
        assert_eq!(get_box_indices(i), (6, 9));
    }
}

#[test]
fn box_values_collects_filled_cells_in_row_major_order() {
    let grid = read_input(PUZZLE).unwrap();
    // top-left box of the puzzle holds 6, 2 (row 0), 5 (row 1), 8 (row 2)
    let values = get_box_values(&grid, 0, 0);
    let digits: Vec<u8> = values.iter().map(|v| v.get()).collect();
    assert_eq!(digits, vec![6, 2, 5, 8]);
    // the same box is reported for any cell inside it
    let values2 = get_box_values(&grid, 2, 2);
    let digits2: Vec<u8> = values2.iter().map(|v| v.get()).collect();
    assert_eq!(digits2, vec![6, 2, 5, 8]);
}

#[test]
fn is_solved_detects_complete_grids() {
    let incomplete = read_input(PUZZLE).unwrap();
    assert!(!is_solved(&incomplete));
    let complete = read_input(SOLUTION).unwrap();
    assert!(is_solved(&complete));
}

#[test]
fn first_unfilled_scans_row_major() {
    let grid = read_input(PUZZLE).unwrap();
    assert_eq!(grid.first_unfilled(), Some((0, 0)));
    let complete = read_input(SOLUTION).unwrap();
    assert_eq!(complete.first_unfilled(), None);
}

#[test]
fn print_grid_renders_rows_with_placeholders() {
    let grid = read_input(PUZZLE).unwrap();
    let text = print_grid(&grid);
    assert_eq!(text, PUZZLE);
    let mut empty_text = String::new();
    for _ in 0..9 {
        empty_text.push_str("_ _ _ _ _ _ _ _ _\n");
    }
    assert_eq!(print_grid(&Grid::new()), empty_text);
}

#[test]
fn cell_value_converts_to_usize() {
    for v in 1..=9u8 {
        let cell = CellValue::new(v).unwrap();
        assert_eq!(usize::from(cell), v as usize);
    }
}
