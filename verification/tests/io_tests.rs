use sudoku_solver::board::Board;
use sudoku_solver::io::{get_encoded_board, get_formatted_board, make_board, BoardReadError};

const EASY: &str =
    "53..7....6..195....98....6.8...6...34..8.3..17...2...6.6....28....419..5....8..79";

#[test]
fn make_board_reads_digits_and_delimiters() {
    let b = make_board(EASY, &'.', "").unwrap();
    assert_eq!(b.fields[0], Some(5));
    assert_eq!(b.fields[1], Some(3));
    assert_eq!(b.fields[2], None);
    assert_eq!(b.fields[80], Some(9));
    assert_eq!(b.fields.iter().filter(|f| f.is_some()).count(), 30);
}

#[test]
fn make_board_wrong_length() {
    assert!(matches!(make_board("123", &'.', ""), Err(BoardReadError::WrongLength)));
    assert!(matches!(make_board(EASY, &'.', ";"), Err(BoardReadError::WrongLength)));
    let long = format!("{}x", EASY);
    assert!(matches!(make_board(&long, &'.', ""), Err(BoardReadError::WrongLength)));
}

#[test]
fn make_board_unexpected_character() {
    let bad = EASY.replacen('.', "0", 1);
    assert!(matches!(make_board(&bad, &'.', ""), Err(BoardReadError::UnexpectedCharacter)));
    let other_del = EASY.replace('.', "x");
    assert!(matches!(make_board(&other_del, &'.', ""), Err(BoardReadError::UnexpectedCharacter)));
    assert!(make_board(&other_del, &'x', "").is_ok());
}

#[test]
fn make_board_ignores_line_end_content() {
    let line = format!("{};", EASY);
    let a = make_board(&line, &'.', "!").unwrap();
    let b = make_board(EASY, &'.', "").unwrap();
    assert_eq!(a.fields, b.fields);
}

#[test]
fn make_board_counts_bytes() {
    // 40 two-byte delimiters and one digit make 81 bytes but only 41 cells
    let line = format!("{}1", "é".repeat(40));
    let b = make_board(&line, &'é', "").unwrap();
    assert_eq!(b.fields[40], Some(1));
    assert!(b.fields[..40].iter().all(|f| f.is_none()));
    assert!(b.fields[41..].iter().all(|f| f.is_none()));
}

#[test]
fn encoded_board_round_trip() {
    let b = make_board(EASY, &'.', "").unwrap();
    assert_eq!(get_encoded_board(&b, &'.', ""), format!("{}\n", EASY));
    assert_eq!(get_encoded_board(&b, &'.', ";"), format!("{};\n", EASY));
    let again = make_board(EASY, &'.', "").unwrap();
    assert_eq!(again.fields, b.fields);
}

#[test]
fn encoded_board_with_other_delimiter_and_large_numbers() {
    let mut b = Board::new();
    b.fields[0] = Some(123);
    b.fields[1] = Some(0);
    let text = get_encoded_board(&b, &'_', "");
    assert_eq!(text, format!("1230{}\n", "_".repeat(79)));
}

#[test]
fn formatted_board_layout() {
    let b = make_board(EASY, &'.', "").unwrap();
    let expected = " 5  3  .   .  7  .   .  .  . \n 6  .  .   1  9  5   .  .  . \n .  9  8   .  .  .   .  6  . \n\n 8  .  .   .  6  .   .  .  3 \n 4  .  .   8  .  3   .  .  1 \n 7  .  .   .  2  .   .  .  6 \n\n .  6  .   .  .  .   2  8  . \n .  .  .   4  1  9   .  .  5 \n .  .  .   .  8  .   .  7  9 \n";
    assert_eq!(get_formatted_board(&b, &'.'), expected);
}

#[test]
fn formatted_empty_board_uses_delimiter() {
    let b = Board::new();
    let text = get_formatted_board(&b, &'*');
    assert_eq!(text.lines().count(), 11);
    assert_eq!(text.lines().next().unwrap(), " *  *  *   *  *  *   *  *  * ");
    assert_eq!(text.lines().nth(3).unwrap(), "");
}

#[test]
fn make_board_split_character_is_wrong_length() {
    // 82 bytes with a line end of one byte, but byte 81 falls inside the 'é'
    let line = format!("{}é", ".".repeat(80));
    assert!(matches!(make_board(&line, &'.', "x"), Err(BoardReadError::WrongLength)));
    assert!(matches!(make_board(&line, &'é', "x"), Err(BoardReadError::WrongLength)));
}
