use sudoku::Coord;
use sudoku::Digits;
use sudoku::InvalidSudokuError;
use sudoku::ParseSudokuError;
use sudoku::Sudoku;

const EASY: &str = ".5..9.6..\n97.46.5.3\n...87.19.\n7.2518.46\n..5.46321\n.64.3.758\n.169872.5\n58.32.467\n.2..5.8..\n";

const EASY_SOLVED: &str = "258193674\n971462583\n643875192\n732518946\n895746321\n164239758\n416987235\n589321467\n327654819\n";

fn parse(s: &str) -> Sudoku {
    Sudoku::from_str(s).unwrap()
}

fn digits_of(input: &str) -> Digits {
    let mut ds = Digits::empty();
    for ch in input.chars() {
        ds = ds.insert(ch.to_digit(10).unwrap() as u8);
    }
    ds
}

#[test]
fn test_easy() {
    let sudoku = parse(EASY);
    let result = sudoku.solve().unwrap();
    let expected = parse(EASY_SOLVED);
    assert_eq!(expected, result);
}

#[test]
fn test_get_house() {
    let sudoku = parse(EASY_SOLVED);
    let result = sudoku.get_house(Coord { row: 0, col: 0 });
    assert_eq!(digits_of("894235167"), result);
    let result = sudoku.get_house(Coord { row: 0, col: 1 });
    assert_eq!(digits_of("137468592"), result);
    let result = sudoku.get_house(Coord { row: 2, col: 2 });
    assert_eq!(digits_of("947153682"), result);
}

#[test]
fn test_validate() {
    let mut sudoku = parse(EASY_SOLVED);
    assert!(sudoku.validate().is_ok());

    sudoku.set(Coord { row: 4, col: 6 }, 9);
    let expected = vec![
        InvalidSudokuError::InvalidRow(4),
        InvalidSudokuError::InvalidHouse(Coord { row: 1, col: 2 }),
        InvalidSudokuError::InvalidCol(6),
    ];
    assert_eq!(expected, sudoku.validate().unwrap_err());
}

#[test]
fn test_get_possible_numbers() {
    let sudoku = parse(EASY);
    let result = sudoku.get_possible_numbers(Coord { row: 0, col: 0 });
    let expected = digits_of("12348");
    assert_eq!(expected, result);
    let result = sudoku.get_possible_numbers(Coord { row: 8, col: 0 });
    let expected = digits_of("34");
    assert_eq!(expected, result);
    let result = sudoku.get_possible_numbers(Coord { row: 8, col: 8 });
    let expected = digits_of("9");
    assert_eq!(expected, result);
}

#[test]
fn test_next_coord() {
    assert_eq!(Some(Coord { row: 0, col: 1 }), (Coord { row: 0, col: 0 }).next());
    assert_eq!(Some(Coord { row: 1, col: 0 }), (Coord { row: 0, col: 8 }).next());
    assert_eq!(Some(Coord { row: 8, col: 0 }), (Coord { row: 7, col: 8 }).next());
    assert_eq!(None, (Coord { row: 8, col: 8 }).next());
}

#[test]
fn test_successor_visits_every_cell_once() {
    let mut coord = Coord { row: 0, col: 0 };
    let mut visited = vec![false; 81];
    visited[0] = true;
    let mut steps = 0;
    while let Some(next) = coord.next() {
        steps += 1;
        let idx = (next.row as usize) * 9 + (next.col as usize);
        assert_eq!(idx, steps);
        assert!(!visited[idx]);
        visited[idx] = true;
        coord = next;
    }
    assert_eq!(80, steps);
    assert!(visited.iter().all(|&v| v));
    assert_eq!(None, coord.next());
}

#[test]
fn test_solve_is_deterministic() {
    let sudoku = parse(EASY);
    let first = sudoku.solve().unwrap();
    let second = sudoku.solve().unwrap();
    assert_eq!(first, second);
}

#[test]
fn test_solved_grid_validates() {
    let sudoku = parse(EASY);
    let solved = sudoku.solve().unwrap();
    assert!(solved.validate().is_ok());
}

#[test]
fn test_clues_are_kept() {
    let sudoku = parse(EASY);
    let solved = sudoku.solve().unwrap();
    for row in 0..9u8 {
        for col in 0..9u8 {
            let coord = Coord { row, col };
            if let Some(d) = sudoku.get(coord) {
                assert_eq!(Some(d), solved.get(coord));
            }
        }
    }
}

#[test]
fn test_interior_candidates() {
    let sudoku = parse(EASY);
    let result = sudoku.get_possible_numbers(Coord { row: 4, col: 3 });
    assert_eq!(digits_of("7"), result);
}

#[test]
fn test_render_round_trip() {
    let sudoku = parse(EASY_SOLVED);
    assert_eq!(EASY_SOLVED, sudoku.render());
}

#[test]
fn test_solve_renders_known_solution() {
    let solved = parse(EASY).solve().unwrap();
    assert_eq!(EASY_SOLVED, solved.render());
}

#[test]
fn test_unsolvable_duplicate_in_row() {
    // The clue row "772518.46" holds the digit 7 twice.
    let text = ".5..9.6..\n97.46.5.3\n...87.19.\n772518.46\n..5.46321\n.64.3.758\n.169872.5\n58.32.467\n.2..5.8..\n";
    let sudoku = parse(text);
    assert_eq!(Err(InvalidSudokuError::Unsolvable), sudoku.solve());
}

#[test]
fn test_parse_rejects_bad_character() {
    let text = EASY.replace('5', "x");
    match Sudoku::from_str(&text) {
        Err(ParseSudokuError::InvalidChar(ch)) => assert_eq!('x', ch),
        other => panic!("expected an invalid-character error, got {:?}", other),
    }
}

#[test]
fn test_parse_rejects_zero() {
    let text = EASY.replace('5', "0");
    assert!(matches!(Sudoku::from_str(&text), Err(ParseSudokuError::InvalidChar('0'))));
}

#[test]
fn test_parse_rejects_wrong_shape() {
    // Too few rows.
    assert_eq!(Err(ParseSudokuError::InvalidSize), Sudoku::from_str("123456789\n"));
    // A short line.
    let short = EASY.replace(".5..9.6..", ".5..9.6.");
    assert_eq!(Err(ParseSudokuError::InvalidSize), Sudoku::from_str(&short));
    // Trailing text after the ninth row.
    let long = format!("{}extra", EASY);
    assert_eq!(Err(ParseSudokuError::InvalidSize), Sudoku::from_str(&long));
    // The empty string.
    assert_eq!(Err(ParseSudokuError::InvalidSize), Sudoku::from_str(""));
}

#[test]
fn test_parse_accepts_missing_final_newline() {
    let trimmed = &EASY[..EASY.len() - 1];
    let a = parse(trimmed);
    let b = parse(EASY);
    assert_eq!(a, b);
}

#[test]
fn test_digit_set_operations() {
    let ds = Digits::empty();
    assert_eq!(None, ds.smallest());
    assert_eq!(0, ds.sum());
    let ds = ds.insert(7).insert(2).insert(7);
    assert!(ds.contains(2) && ds.contains(7));
    assert!(!ds.contains(1));
    assert_eq!(Some(2), ds.smallest());
    assert_eq!(9, ds.sum());
    let ds = Digits::full().diff(ds);
    assert!(!ds.contains(2) && !ds.contains(7));
    assert_eq!(Some(1), ds.smallest());
    assert_eq!(45 - 9, ds.sum());
    assert_eq!(45, Digits::full().sum());
}

#[test]
fn test_validate_reports_every_bad_group() {
    // Swapping two distinct cells of a solved grid corrupts their rows,
    // columns, or boxes, and every affected group is reported.
    let mut sudoku = parse(EASY_SOLVED);
    // Row 0 is "258193674": put the 5 from (0, 1) at (0, 4) instead.
    sudoku.set(Coord { row: 0, col: 4 }, 5);
    let errors = sudoku.validate().unwrap_err();
    assert!(errors.contains(&InvalidSudokuError::InvalidRow(0)));
    assert!(errors.contains(&InvalidSudokuError::InvalidCol(4)));
    assert!(errors.contains(&InvalidSudokuError::InvalidHouse(Coord { row: 0, col: 1 })));
    assert_eq!(3, errors.len());
}

#[test]
fn test_grid_cell_updates() {
    let mut sudoku = parse(EASY);
    let coord = Coord { row: 0, col: 0 };
    assert_eq!(None, sudoku.get(coord));
    sudoku.set(coord, 8);
    assert_eq!(Some(8), sudoku.get(coord));
    sudoku.unset(coord);
    assert_eq!(None, sudoku.get(coord));
    assert_eq!(Some(5), sudoku.get(Coord { row: 0, col: 1 }));
}
