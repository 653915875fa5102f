use sudoku::Board;

fn board_from(text: &str) -> Board {
    let cells: Vec<char> = text.chars().collect();
    Board::from_chars(&cells).expect("puzzle text should hold 81 cells")
}

fn grid_of(b: &Board) -> Vec<u8> {
    let mut cells = Vec::new();
    for y in 0..9 {
        for x in 0..9 {
            cells.push(b.get(x, y));
        }
    }
    cells
}

/// Every row, column and square is a permutation of 1..=9.
fn assert_solved(b: &Board) {
    for i in 0..9 {
        let groups = [b.get_row(i), b.get_column(i), b.get_square(i)];
        for group in groups {
            let mut seen = [false; 10];
            for v in group {
                assert!((1..=9).contains(&v), "cell out of range: {}", v);
                assert!(!seen[v as usize], "digit {} repeated", v);
                seen[v as usize] = true;
            }
        }
    }
}

const SOLVED: &str = "\
123456789\
456789123\
789123456\
234567891\
567891234\
891234567\
345678912\
678912345\
912345678";

// The same grid with its first cell blanked: that cell is forced to 1.
const ONE_BLANK: &str = "\
.23456789\
456789123\
789123456\
234567891\
567891234\
891234567\
345678912\
678912345\
912345678";

// A published easy puzzle.
const EASY: &str = "\
..3.2.6..\
9..3.5..1\
..18.64..\
..81.29..\
7.......8\
..67.82..\
..26.95..\
8..2.3..9\
..5.1.3..";

// Two given 1s in the top row and blanks beside them: no digit can ever make
// that row duplicate-free, so the search must exhaust and fail.
const IMPOSSIBLE: &str = "\
11.......\
.........\
.........\
.........\
.........\
.........\
.........\
.........\
.........";

const EMPTY: &str = "\
.........\
.........\
.........\
.........\
.........\
.........\
.........\
.........\
.........";

#[test]
fn already_solved_board_succeeds_unchanged() {
    let mut b = board_from(SOLVED);
    let before = grid_of(&b);
    assert!(b.solve().is_ok());
    assert_eq!(grid_of(&b), before);
    assert_solved(&b);
}

#[test]
fn forced_single_blank_is_filled() {
    let mut b = board_from(ONE_BLANK);
    assert!(b.solve().is_ok());
    assert_eq!(b.get(0, 0), 1);
    assert_eq!(grid_of(&b), grid_of(&board_from(SOLVED)));
    assert_solved(&b);
}

#[test]
fn easy_puzzle_is_solved_and_givens_are_kept() {
    let mut b = board_from(EASY);
    let before = grid_of(&b);
    assert!(b.solve().is_ok());
    assert_solved(&b);
    for k in 0..81 {
        if before[k] != 0 {
            assert_eq!(grid_of(&b)[k], before[k], "given cell {} was changed", k);
        }
    }
}

#[test]
fn conflicting_givens_make_the_search_fail() {
    let mut b = board_from(IMPOSSIBLE);
    let before = grid_of(&b);
    assert!(b.solve().is_err());
    // The failed board is restored to its entry state, blanks included.
    assert_eq!(grid_of(&b), before);
}

#[test]
fn empty_board_finds_a_full_valid_grid() {
    let mut b = board_from(EMPTY);
    assert!(b.solve().is_ok());
    assert_solved(&b);
    // With no constraints above it, the first row is filled in ascending
    // order, one digit per attempt.
    assert_eq!(b.get_row(0), vec![1, 2, 3, 4, 5, 6, 7, 8, 9]);
}

#[test]
fn repeated_runs_give_identical_output() {
    let mut first = board_from(EASY);
    let mut second = board_from(EASY);
    assert_eq!(first.solve(), second.solve());
    assert_eq!(grid_of(&first), grid_of(&second));

    let mut third = board_from(IMPOSSIBLE);
    let mut fourth = board_from(IMPOSSIBLE);
    assert_eq!(third.solve(), fourth.solve());
    assert_eq!(grid_of(&third), grid_of(&fourth));
}
