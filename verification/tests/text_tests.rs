use sudoku::Board;

const SOLVED: &str = "\
123456789\
456789123\
789123456\
234567891\
567891234\
891234567\
345678912\
678912345\
912345678";

fn board_from(text: &str) -> Board {
    let cells: Vec<char> = text.chars().collect();
    Board::from_chars(&cells).expect("puzzle text should hold 81 cells")
}

#[test]
fn parse_keeps_digits_and_blanks_in_scan_order() {
    let text = "\
5........\
.3.......\
.........\
.........\
....7....\
.........\
.........\
.........\
........9";
    let b = board_from(text);
    assert_eq!(b.get(0, 0), 5);
    assert_eq!(b.get(1, 1), 3);
    assert_eq!(b.get(4, 4), 7);
    assert_eq!(b.get(8, 8), 9);
    assert_eq!(b.get(1, 0), 0);
    assert_eq!(b.get(8, 7), 0);
}

#[test]
fn parse_skips_newlines_and_carriage_returns() {
    let with_lines = "123456789\r\n456789123\n789123456\n234567891\n567891234\n891234567\n345678912\n678912345\n912345678\n";
    let b = board_from(with_lines);
    let plain = board_from(SOLVED);
    for y in 0..9 {
        assert_eq!(b.get_row(y), plain.get_row(y));
    }
}

#[test]
fn parse_treats_any_non_digit_as_a_blank() {
    let text = "\
1x3_5 789\
456789123\
789123456\
234567891\
567891234\
891234567\
345678912\
678912345\
912345678";
    let b = board_from(text);
    assert_eq!(b.get(0, 0), 1);
    assert_eq!(b.get(1, 0), 0);
    assert_eq!(b.get(2, 0), 3);
    assert_eq!(b.get(3, 0), 0);
    assert_eq!(b.get(4, 0), 5);
    assert_eq!(b.get(5, 0), 0);
    assert_eq!(b.get(6, 0), 7);
}

#[test]
fn parse_rejects_short_and_long_inputs() {
    let short: Vec<char> = "123".chars().collect();
    assert!(Board::from_chars(&short).is_none());
    let eighty: Vec<char> = SOLVED.chars().take(80).collect();
    assert!(Board::from_chars(&eighty).is_none());
    let mut long = String::from(SOLVED);
    long.push('4');
    let long: Vec<char> = long.chars().collect();
    assert!(Board::from_chars(&long).is_none());
}

#[test]
fn parse_accepts_a_literal_zero_as_a_given_blank_value() {
    // A digit 0 parses to value 0 but is a given, not a free cell: the solver
    // never assigns it.
    let mut text = String::from("0");
    text.push_str(&SOLVED[1..]);
    let cells: Vec<char> = text.chars().collect();
    let mut b = Board::from_chars(&cells).unwrap();
    assert_eq!(b.get(0, 0), 0);
    assert!(b.solve().is_ok());
    assert_eq!(b.get(0, 0), 0);
}

#[test]
fn to_text_renders_nine_lines_with_underscores_for_blanks() {
    let b = board_from(SOLVED);
    let expected = "\
1 2 3 4 5 6 7 8 9 \n\
4 5 6 7 8 9 1 2 3 \n\
7 8 9 1 2 3 4 5 6 \n\
2 3 4 5 6 7 8 9 1 \n\
5 6 7 8 9 1 2 3 4 \n\
8 9 1 2 3 4 5 6 7 \n\
3 4 5 6 7 8 9 1 2 \n\
6 7 8 9 1 2 3 4 5 \n\
9 1 2 3 4 5 6 7 8 ";
    assert_eq!(b.to_text(), expected);

    let text = "\
5........\
.........\
.........\
.........\
.........\
.........\
.........\
.........\
.........";
    let b = board_from(text);
    let mut expected = String::from("5 _ _ _ _ _ _ _ _ \n");
    for _ in 0..7 {
        expected.push_str("_ _ _ _ _ _ _ _ _ \n");
    }
    expected.push_str("_ _ _ _ _ _ _ _ _ ");
    assert_eq!(b.to_text(), expected);
}
