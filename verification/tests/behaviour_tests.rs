use sudoku_solver::bits::candidate_count;
use sudoku_solver::solver::{exclusive_options, inner_box_of};
use sudoku_solver::{
    line_is_readable, process_line, solve_grid_text, Possibles, Solution, SolveState, Sudoku,
    ALL_OPTIONS,
};

const PUZZLE: &str =
    "070000043040009610800634900094052000358460020000800530080070091902100005007040802";
const SOLUTION: &str =
    "679518243543729618821634957794352186358461729216897534485276391962183475137945862";

const HARD_PUZZLE: &str =
    "032000071504000008081040056300870020000004100000350600000008010000915860000000390";
const HARD_SOLUTION: &str =
    "632589471574126938981743256346871529257694183198352647469238715723915864815467392";

fn digit_at(text: &str, row: usize, col: usize) -> u8 {
    text.as_bytes()[row * 9 + col] - b'0'
}

fn candidate_has(sudoku: &Sudoku, row: usize, col: usize, digit: u8) -> bool {
    sudoku.possibles_raster[row][col].options & (1u16 << (digit - 1)) != 0
}

/// Every digit agrees with the solution and every cell keeps the solution's
/// digit among its candidates.
fn fits_solution(sudoku: &Sudoku, solution: &str) -> bool {
    (0..9).all(|row| {
        (0..9).all(|col| {
            let expected = digit_at(solution, row, col);
            let digit = sudoku.raster[row][col];
            (digit == 0 || digit == expected) && candidate_has(sudoku, row, col, expected)
        })
    })
}

fn no_digit_twice(sudoku: &Sudoku) -> bool {
    for unit in 0..27 {
        let mut seen = [false; 10];
        for k in 0..9 {
            let (row, col) = if unit < 9 {
                (unit, k)
            } else if unit < 18 {
                (k, unit - 9)
            } else {
                let b = unit - 18;
                ((b / 3) * 3 + k / 3, (b % 3) * 3 + k % 3)
            };
            let digit = sudoku.raster[row][col] as usize;
            if digit != 0 {
                if seen[digit] {
                    return false;
                }
                seen[digit] = true;
            }
        }
    }
    true
}

#[test]
fn reads_givens_and_candidates() {
    let sudoku = Sudoku::from(PUZZLE);
    assert_eq!(sudoku.raster[0][1], 7);
    assert_eq!(sudoku.raster[0][0], 0);
    assert_eq!(sudoku.possibles_raster[0][0].options, ALL_OPTIONS);
    assert_eq!(sudoku.possibles_raster[0][1].options, 1 << 6);
    // row 0 holds 7, 4, 3: open digits 1, 2, 5, 6, 8, 9
    assert_eq!(sudoku.rows_options[0], 0b1_1011_0011);
    // column 0 holds 8, 3, 9
    assert_eq!(sudoku.columns_options[0], 0b0_0111_1011);
    // box 0 holds 7, 4, 8
    assert_eq!(sudoku.inner_box_options[0], 0b1_0011_0111);
    assert_eq!(sudoku.unsolved_rows, ALL_OPTIONS);
    assert_eq!(sudoku.unsolved_columns, ALL_OPTIONS);
    assert_eq!(sudoku.unsolved_inner_boxes, ALL_OPTIONS);
}

#[test]
fn solved_rows_leave_the_unsolved_mask() {
    let sudoku = Sudoku::from(
        "679518243543729618800634900094052000358460020000800530080070091902100005007040802",
    );
    assert_eq!(sudoku.rows_options[0], 0);
    assert_eq!(sudoku.rows_options[1], 0);
    assert_eq!(sudoku.unsolved_rows, 0b1_1111_1100);
}

#[test]
fn possibles_from_value() {
    assert_eq!(Possibles::default().options, ALL_OPTIONS);
    assert_eq!(Possibles::from(0).options, ALL_OPTIONS);
    assert_eq!(Possibles::from(1).options, 1);
    assert_eq!(Possibles::from(5).options, 16);
    assert_eq!(Possibles::from(9).options, 256);
}

#[test]
fn single_candidate_is_the_solution() {
    assert_eq!(Possibles { options: 1 }.get_solution(), Some(1));
    assert_eq!(Possibles { options: 256 }.get_solution(), Some(9));
    assert_eq!(Possibles { options: 0 }.get_solution(), None);
    assert_eq!(Possibles { options: ALL_OPTIONS }.get_solution(), None);
}

#[test]
fn counts_candidates() {
    assert_eq!(candidate_count(0), 0);
    assert_eq!(candidate_count(ALL_OPTIONS), 9);
    assert_eq!(candidate_count(0b1010_0001), 3);
    assert_eq!(candidate_count(u16::MAX), 16);
}

#[test]
fn exclusive_bits() {
    assert_eq!(exclusive_options(0b0111, 0b0001, 0b0010), 0b0100);
    assert_eq!(exclusive_options(0b0111, 0b0111, 0b0000), 0);
    assert_eq!(exclusive_options(0b1000, 0, 0), 0b1000);
}

#[test]
fn box_of_cell() {
    assert_eq!(inner_box_of(0, 0), 0);
    assert_eq!(inner_box_of(4, 7), 5);
    assert_eq!(inner_box_of(8, 8), 8);
    assert_eq!(inner_box_of(6, 2), 6);
}

#[test]
fn set_value_updates_masks() {
    let mut sudoku = Sudoku::from(
        "679518243543729618821634950794352186358461729216897534485276391962183475137945862",
    );
    assert_eq!(sudoku.rows_options[2], 1 << 6);
    assert_eq!(sudoku.unsolved_rows, 1 << 2);
    sudoku.set_value(2, 8, 7);
    assert_eq!(sudoku.raster[2][8], 7);
    assert_eq!(sudoku.possibles_raster[2][8].options, 1 << 6);
    assert_eq!(sudoku.rows_options[2], 0);
    assert_eq!(sudoku.columns_options[8], 0);
    assert_eq!(sudoku.inner_box_options[2], 0);
    assert_eq!(sudoku.unsolved_rows, 0);
    assert_eq!(sudoku.unsolved_columns, 0);
    assert_eq!(sudoku.unsolved_inner_boxes, 0);
}

#[test]
fn set_value_keeps_other_units_open() {
    let mut sudoku = Sudoku::from(PUZZLE);
    sudoku.set_value(0, 0, 6);
    assert_eq!(sudoku.rows_options[0], 0b1_1001_0011);
    assert_eq!(sudoku.columns_options[0], 0b0_0101_1011);
    assert_eq!(sudoku.inner_box_options[0], 0b1_0001_0111);
    assert_eq!(sudoku.unsolved_rows, ALL_OPTIONS);
}

#[test]
fn lines_columns_and_boxes() {
    let sudoku = Sudoku::from(SOLUTION);
    assert_eq!(sudoku.iter_row(1), vec![5, 4, 3, 7, 2, 9, 6, 1, 8]);
    assert_eq!(sudoku.iter_column(0), vec![6, 5, 8, 7, 3, 2, 4, 9, 1]);
    assert_eq!(sudoku.iter_inner_box(4, 4), vec![3, 5, 2, 4, 6, 1, 8, 9, 7]);
    assert_eq!(sudoku.iter_inner_box(0, 8), vec![2, 4, 3, 6, 1, 8, 9, 5, 7]);
}

#[test]
fn simple_elimination_keeps_the_solution() {
    let mut sudoku = Sudoku::from(PUZZLE);
    assert!(fits_solution(&sudoku, SOLUTION));
    let found = sudoku.solve_all_simples();
    assert!(found);
    assert!(fits_solution(&sudoku, SOLUTION));
    assert!(no_digit_twice(&sudoku));
}

#[test]
fn simple_elimination_narrows_empty_cells() {
    let mut sudoku = Sudoku::from(HARD_PUZZLE);
    while sudoku.solve_all_simples() {}
    // nothing written in the last sweep: every empty cell holds only digits open in its units
    for row in 0..9 {
        for col in 0..9 {
            if sudoku.raster[row][col] == 0 {
                let open = sudoku.rows_options[row]
                    & sudoku.columns_options[col]
                    & sudoku.inner_box_options[inner_box_of(row, col)];
                let cands = sudoku.possibles_raster[row][col].options;
                assert_eq!(cands & !open, 0);
                assert_ne!(candidate_count(cands), 1);
            }
        }
    }
    assert!(fits_solution(&sudoku, HARD_SOLUTION));
}

#[test]
fn exclusive_options_keep_the_solution() {
    let mut sudoku = Sudoku::from(HARD_PUZZLE);
    let mut steps = 0;
    loop {
        while sudoku.solve_all_simples() {}
        if !sudoku.solve_exclusive_options() {
            break;
        }
        steps += 1;
        assert!(fits_solution(&sudoku, HARD_SOLUTION));
        assert!(no_digit_twice(&sudoku));
    }
    assert!(steps > 0);
    let before = sudoku;
    assert!(!sudoku.solve_exclusive_options());
    assert_eq!(sudoku.raster, before.raster);
}

#[test]
fn ray_casting_keeps_the_solution() {
    let mut sudoku = Sudoku::from(HARD_PUZZLE);
    let mut removed = false;
    for _ in 0..50 {
        while sudoku.solve_all_simples() || sudoku.solve_exclusive_options() {}
        let before = sudoku;
        if sudoku.exclude_by_ray_casting() {
            removed = true;
            assert_eq!(sudoku.raster, before.raster);
            for row in 0..9 {
                for col in 0..9 {
                    let now = sudoku.possibles_raster[row][col].options;
                    let was = before.possibles_raster[row][col].options;
                    assert_eq!(now & !was, 0);
                }
            }
            assert!(fits_solution(&sudoku, HARD_SOLUTION));
        } else {
            break;
        }
    }
    assert!(removed);
}

#[test]
fn testing_a_value_makes_progress() {
    let puzzle = "800000000003600000070090200050007000000045700000100030001000068008500010090000400";
    let solution = "812753649943682175675491283154237896369845721287169534521974368438526917796318452";
    let mut sudoku = Sudoku::from(puzzle);
    let mut tested = 0;
    loop {
        if sudoku.unsolved_rows == 0 {
            break;
        }
        if sudoku.solve_all_simples()
            || sudoku.solve_exclusive_options()
            || sudoku.exclude_by_ray_casting()
        {
            continue;
        }
        let before = sudoku;
        let progressed = sudoku.exclude_by_testing();
        assert!(progressed);
        tested += 1;
        let row = before.unsolved_rows.trailing_zeros() as usize;
        let changed: Vec<usize> = (0..9)
            .filter(|&col| {
                before.possibles_raster[row][col].options != sudoku.possibles_raster[row][col].options
                    || before.raster[row][col] != sudoku.raster[row][col]
            })
            .collect();
        assert_eq!(changed.len(), 1);
    }
    assert!(tested > 0);
    assert!(no_digit_twice(&sudoku));
    let solution = Solution::from(solution);
    assert_eq!(sudoku.verify(&solution), SolveState::Correct);
}

#[test]
fn testing_has_nothing_to_try_on_a_solved_grid() {
    let mut sudoku = Sudoku::from(SOLUTION);
    assert!(!sudoku.exclude_by_testing());
}

#[test]
fn solve_keeps_givens_and_fills_the_solution() {
    let given = Sudoku::from(HARD_PUZZLE);
    let mut sudoku = Sudoku::from(HARD_PUZZLE);
    sudoku.solve();
    for row in 0..9 {
        for col in 0..9 {
            if given.raster[row][col] != 0 {
                assert_eq!(sudoku.raster[row][col], given.raster[row][col]);
            }
        }
    }
    assert_eq!(sudoku.unsolved_rows, 0);
    assert!(no_digit_twice(&sudoku));
    for row in 0..9 {
        for col in 0..9 {
            assert_eq!(sudoku.raster[row][col], digit_at(HARD_SOLUTION, row, col));
        }
    }
}

#[test]
fn verify_reports_each_state() {
    let solution = Solution::from(SOLUTION);
    let unsolved = Sudoku::from(PUZZLE);
    assert_eq!(unsolved.verify(&solution), SolveState::Incomplete);
    let solved = Sudoku::from(SOLUTION);
    assert_eq!(solved.verify(&solution), SolveState::Correct);
    let wrong = Solution::from(
        "769518243543729618821634957794352186358461729216897534485276391962183475137945862",
    );
    assert_eq!(solved.verify(&wrong), SolveState::Incorrect);
    // the first difference in reading order decides: an early wrong digit before a late empty cell
    let mut partial = Sudoku::from(SOLUTION);
    partial.raster[8][8] = 0;
    assert_eq!(partial.verify(&wrong), SolveState::Incorrect);
    assert_eq!(partial.verify(&solution), SolveState::Incomplete);
}

#[test]
fn solution_reads_digits() {
    let solution = Solution::from(SOLUTION);
    assert_eq!(solution.raster[0], [6, 7, 9, 5, 1, 8, 2, 4, 3]);
    assert_eq!(solution.raster[8][8], 2);
}

#[test]
fn line_without_comma_gives_nothing() {
    assert!(line_is_readable("no comma here"));
    assert_eq!(process_line("no comma here"), None);
}

#[test]
fn readable_lines() {
    let line = format!("{PUZZLE},{SOLUTION}");
    assert!(line_is_readable(&line));
    assert!(!line_is_readable("123,456"));
    let short = format!("{PUZZLE},{}", &SOLUTION[..80]);
    assert!(!line_is_readable(&short));
    let bad = format!("{}x,{SOLUTION}", &PUZZLE[..80]);
    assert!(!line_is_readable(&bad));
}

#[test]
fn process_line_reports_incorrect_solution() {
    let line = format!(
        "{PUZZLE},{}",
        "769518243543729618821634957794352186358461729216897534485276391962183475137945862"
    );
    assert_eq!(process_line(&line), Some(SolveState::Incorrect));
}

#[test]
fn solves_dotted_text() {
    let dotted: Vec<u8> = PUZZLE
        .bytes()
        .map(|b| if b == b'0' { b'.' } else { b })
        .collect();
    let solved = solve_grid_text(&dotted).expect("solved");
    assert_eq!(solved, SOLUTION.as_bytes().to_vec());
}

#[test]
fn dotted_text_left_unsolved() {
    // the first cell has no candidate: its row lacks only 5, which stands in
    // its column
    let puzzle = ".79618243543729618821.349577943521863584617292168975344852763919621834751379458..";
    assert_eq!(solve_grid_text(puzzle.as_bytes()), None);
}

#[test]
fn digit_picture() {
    let sudoku = Sudoku::from(PUZZLE);
    let text = sudoku.to_text();
    let lines: Vec<&str> = text.lines().collect();
    assert_eq!(lines.len(), 13);
    assert_eq!(lines[0], "+-------+-------+-------+");
    assert_eq!(lines[1], "| . 7 . | . . . | . 4 3 |");
    assert_eq!(lines[4], "+-------+-------+-------+");
    assert_eq!(lines[5], "| . 9 4 | . 5 2 | . . . |");
    assert_eq!(lines[12], "+-------+-------+-------+");
    assert!(!text.ends_with('\n'));
}

#[test]
fn candidate_picture() {
    let mut sudoku = Sudoku::from(PUZZLE);
    sudoku.possibles_raster[0][2].options = 0b1_0000_0101;
    let text = sudoku.possibles_view().to_text();
    let lines: Vec<&str> = text.lines().collect();
    let sep = "+-------------------------------+-------------------------------+-------------------------------+";
    assert_eq!(lines.len(), 13);
    assert_eq!(lines[0], sep);
    assert_eq!(
        lines[1],
        "| 111111111 --------- 100000101 | 111111111 111111111 111111111 | 111111111 --------- --------- |"
    );
    assert_eq!(lines[12], sep);
}

#[test]
fn lost_candidates_never_return() {
    let puzzle = "800000000003600000070090200050007000000045700000100030001000068008500010090000400";
    let start = Sudoku::from(puzzle);
    let mut sudoku = start;
    sudoku.solve();
    for row in 0..9 {
        for col in 0..9 {
            let now = sudoku.possibles_raster[row][col].options;
            let was = start.possibles_raster[row][col].options;
            assert_eq!(now & !was, 0);
            if start.raster[row][col] != 0 {
                assert_eq!(sudoku.raster[row][col], start.raster[row][col]);
            }
        }
    }
    assert_eq!(sudoku.unsolved_rows, 0);
    assert!(no_digit_twice(&sudoku));
}

#[test]
fn testing_tries_the_first_testable_cell_in_reading_order() {
    // row 0 holds an empty cell with no candidate left; the first cell that
    // can be tried is the empty cell of row 4
    let mut text = SOLUTION.as_bytes().to_vec();
    text[0] = b'0';
    text[4 * 9] = b'0';
    let text = String::from_utf8(text).unwrap();
    let mut sudoku = Sudoku::from(&text);
    sudoku.possibles_raster[0][0].options = 0;
    let before = sudoku;
    assert!(sudoku.exclude_by_testing());
    assert_eq!(sudoku.raster, before.raster);
    for row in 0..9 {
        for col in 0..9 {
            let expected = if (row, col) == (4, 0) {
                ALL_OPTIONS & !1
            } else {
                before.possibles_raster[row][col].options
            };
            assert_eq!(sudoku.possibles_raster[row][col].options, expected);
        }
    }
}

#[test]
fn unsolved_run_leaves_no_technique_with_progress() {
    let puzzle = "079618243543729618821034957794352186358461729216897534485276391962183475137945800";
    let mut sudoku = Sudoku::from(puzzle);
    sudoku.solve();
    assert_ne!(sudoku.unsolved_rows, 0);
    assert_eq!(sudoku.raster[8][7], 6);
    assert_eq!(sudoku.raster[8][8], 2);
    let mut copy = sudoku;
    assert!(!copy.solve_all_simples());
    let mut copy = sudoku;
    assert!(!copy.solve_exclusive_options());
    let mut copy = sudoku;
    assert!(!copy.exclude_by_ray_casting());
    let mut copy = sudoku;
    assert!(!copy.exclude_by_testing());
}

#[test]
fn unique_puzzles_are_completed() {
    for (puzzle, solution) in [(PUZZLE, SOLUTION), (HARD_PUZZLE, HARD_SOLUTION)] {
        let line = format!("{puzzle},{solution}");
        assert_eq!(process_line(&line), Some(SolveState::Correct));
        let dotted: Vec<u8> = puzzle
            .bytes()
            .map(|b| if b == b'0' { b'.' } else { b })
            .collect();
        assert_eq!(solve_grid_text(&dotted), Some(solution.as_bytes().to_vec()));
    }
}

#[test]
fn open_digits_are_those_not_placed() {
    let sudoku = Sudoku::from(PUZZLE);
    for unit in 0..27 {
        let mut placed: u16 = 0;
        for k in 0..9 {
            let (row, col) = if unit < 9 {
                (unit, k)
            } else if unit < 18 {
                (k, unit - 9)
            } else {
                let b = unit - 18;
                ((b / 3) * 3 + k / 3, (b % 3) * 3 + k % 3)
            };
            let d = sudoku.raster[row][col];
            if d > 0 {
                placed |= 1u16 << (d - 1);
            }
        }
        let open = if unit < 9 {
            sudoku.rows_options[unit]
        } else if unit < 18 {
            sudoku.columns_options[unit - 9]
        } else {
            sudoku.inner_box_options[unit - 18]
        };
        assert_eq!(open, 511 & !placed);
    }
}
