use sudoku::Board;

fn board_from(text: &str) -> Board {
    let cells: Vec<char> = text.chars().collect();
    Board::from_chars(&cells).expect("puzzle text should hold 81 cells")
}

// A complete, valid grid.
const SOLVED: &str = "\
123456789\
456789123\
789123456\
234567891\
567891234\
891234567\
345678912\
678912345\
912345678";

#[test]
fn get_reads_row_major_cells() {
    let b = board_from(SOLVED);
    assert_eq!(b.get(0, 0), 1);
    assert_eq!(b.get(8, 0), 9);
    assert_eq!(b.get(0, 1), 4);
    assert_eq!(b.get(3, 3), 5);
    assert_eq!(b.get(8, 8), 8);
}

#[test]
fn set_overwrites_one_cell() {
    let mut b = board_from(SOLVED);
    b.set(4, 2, 5);
    assert_eq!(b.get(4, 2), 5);
    assert_eq!(b.get(3, 2), 1);
    assert_eq!(b.get(5, 2), 3);
    assert_eq!(b.get(4, 1), 8);
}

#[test]
fn get_row_extracts_in_x_order() {
    let b = board_from(SOLVED);
    assert_eq!(b.get_row(0), vec![1, 2, 3, 4, 5, 6, 7, 8, 9]);
    assert_eq!(b.get_row(3), vec![2, 3, 4, 5, 6, 7, 8, 9, 1]);
}

#[test]
fn get_column_extracts_in_y_order() {
    let b = board_from(SOLVED);
    assert_eq!(b.get_column(0), vec![1, 4, 7, 2, 5, 8, 3, 6, 9]);
    assert_eq!(b.get_column(8), vec![9, 3, 6, 1, 4, 7, 2, 5, 8]);
}

#[test]
fn get_square_scans_rows_within_square() {
    let b = board_from(SOLVED);
    assert_eq!(b.get_square(0), vec![1, 2, 3, 4, 5, 6, 7, 8, 9]);
    assert_eq!(b.get_square(1), vec![4, 5, 6, 7, 8, 9, 1, 2, 3]);
    assert_eq!(b.get_square(8), vec![9, 1, 2, 3, 4, 5, 6, 7, 8]);
}

#[test]
fn get_square_from_pos_matches_square_of_cell() {
    let b = board_from(SOLVED);
    assert_eq!(b.get_square_from_pos(0, 0), b.get_square(0));
    assert_eq!(b.get_square_from_pos(2, 2), b.get_square(0));
    assert_eq!(b.get_square_from_pos(3, 0), b.get_square(1));
    assert_eq!(b.get_square_from_pos(8, 8), b.get_square(8));
    assert_eq!(b.get_square_from_pos(4, 7), b.get_square(7));
}

#[test]
fn is_array_unique_accepts_distinct_digits() {
    assert!(Board::is_array_unique(vec![1, 2, 3, 4, 5, 6, 7, 8, 9]));
    assert!(Board::is_array_unique(vec![9, 8, 7, 6, 5, 4, 3, 2, 1]));
}

#[test]
fn is_array_unique_ignores_repeated_blanks() {
    assert!(Board::is_array_unique(vec![0, 0, 0, 0, 0, 0, 0, 0, 0]));
    assert!(Board::is_array_unique(vec![5, 0, 0, 3, 0, 0, 9, 0, 0]));
}

#[test]
fn is_array_unique_rejects_a_repeated_digit() {
    assert!(!Board::is_array_unique(vec![1, 2, 3, 4, 5, 6, 7, 8, 1]));
    assert!(!Board::is_array_unique(vec![0, 7, 0, 0, 7, 0, 0, 0, 0]));
}

#[test]
fn is_pos_correct_sees_conflicts_in_row_column_and_square() {
    let b = board_from(SOLVED);
    assert!(b.is_pos_correct(0, 0));
    assert!(b.is_pos_correct(4, 4));

    // A row conflict.
    let mut b = board_from(SOLVED);
    b.set(1, 0, 1);
    assert!(!b.is_pos_correct(0, 0));

    // A column conflict.
    let mut b = board_from(SOLVED);
    b.set(0, 1, 1);
    assert!(!b.is_pos_correct(0, 0));
    // Other columns are untouched, but the changed cell's row now clashes too.
    assert!(!b.is_pos_correct(0, 1));

    // A square conflict that is in neither the same row nor the same column.
    let mut b = board_from(SOLVED);
    b.set(1, 1, 1);
    assert!(!b.is_pos_correct(0, 0));
}

#[test]
fn get_modify_nth_mut_targets_the_free_cell() {
    // One blank at (3, 0).
    let text = "\
123.56789\
456789123\
789123456\
234567891\
567891234\
891234567\
345678912\
678912345\
912345678";
    let mut b = board_from(text);
    assert_eq!(b.get(3, 0), 0);
    {
        let cell = b.get_modify_nth_mut(0);
        *cell = 4;
    }
    assert_eq!(b.get(3, 0), 4);
}
