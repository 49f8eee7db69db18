use sudoku_solver::{process_line, Possibles, Solution, SolveState, Sudoku, ALL_OPTIONS};

#[test]
fn test_one_puzzle() {
    let puzzle_example = "070000043040009610800634900094052000358460020000800530080070091902100005007040802,\
            679518243543729618821634957794352186358461729216897534485276391962183475137945862";

    let result = process_line(puzzle_example).expect("Some result");

    assert_eq!(result, SolveState::Correct);
}

#[test]
fn test_unknowns() {
    let puzzle_example =
        "679518243543729618800634900094052000358460020000800530080070091902100005007040802";
    let sudoku = Sudoku::from(puzzle_example);
    println!("{}", sudoku.to_text());
    assert_eq!(format!("{:09b}", sudoku.unsolved_rows), "111111100");
}

#[test]
fn test_possibles() {
    let mut possibles = Possibles {
        options: 0b0000_1000_0000,
    };
    let result = possibles.get_solution().expect("A result");
    assert_eq!(result, 8);
    possibles = Possibles {
        options: 0b0001_1000_0000,
    };
    assert_eq!(None, possibles.get_solution());
}

#[test]
fn test_bit_operations() {
    let index = 3_usize;
    let bit_mask = 1u16 << index;
    let visualized = format!("{:08b}", bit_mask);
    assert_eq!(visualized, "00001000");
    let bit_mask = ALL_OPTIONS ^ bit_mask;
    let visualized = format!("{:b}", bit_mask);
    assert_eq!(visualized, "111110111");
}

#[test]
fn test_trailing_zeros() {
    let value: u16 = 0b0000_0100;
    println!("{} = {}", value, value.trailing_zeros());
}

#[test]
fn incomplete_result() {
    let puzzle = "490703000100500730300900084070000103036000005541600900004009000050208410610000002\
            ,495783621182546739367921584279854163836197245541632978724319856953268417618475392";
    let (puzzle, solution) = puzzle.split_once(',').expect("parsed");
    let mut puzzle = Sudoku::from(puzzle);
    println!("{}", puzzle.to_text());
    let solution = Solution::from(solution);

    puzzle.solve();
    println!("{}", puzzle.to_text());

    let result = puzzle.verify(&solution);
    assert_eq!(result, SolveState::Correct);
}

#[test]
fn incomplete_result_2() {
    let puzzle = "032000071504000008081040056300870020000004100000350600000008010000915860000000390,\
            632589471574126938981743256346871529257694183198352647469238715723915864815467392";
    let (puzzle, solution) = puzzle.split_once(',').expect("parsed");
    let mut puzzle = Sudoku::from(puzzle);
    println!("{}", puzzle.to_text());
    let solution = Solution::from(solution);

    puzzle.solve();
    println!("{}", puzzle.to_text());

    let result = puzzle.verify(&solution);

    assert_eq!(result, SolveState::Correct);
}
