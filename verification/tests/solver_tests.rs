use sudoku_solver::board::{Board, BoardPoss, PossField};
use sudoku_solver::io::{get_encoded_board, make_board};
use sudoku_solver::solver::{
    calc_dependence, calc_guess, check_columns, check_rows, check_squares, has_none,
    replace_known, try_solve,
};

const EASY: &str =
    "53..7....6..195....98....6.8...6...34..8.3..17...2...6.6....28....419..5....8..79";
const EASY_SOLVED: &str =
    "534678912672195348198342567859761423426853791713924856961537284287419635345286179";
const README: &str =
    "........8..3...4...9..2..6.....79.......612...6.5.2.7...8...5...1.....2.4.5.....3";
const README_SOLVED: &str =
    "621943758783615492594728361142879635357461289869532174238197546916354827475286913";
const HARD: &str =
    "8..........36......7..9.2...5...7.......457.....1...3...1....68..85...1..9....4..";
const HARD_SOLVED: &str =
    "812753649943682175675491283154237896369845721287169534521974368438526917796318452";

fn board(s: &str) -> Board {
    make_board(s, &'.', "").unwrap()
}

fn solve_text(s: &str) -> Option<String> {
    try_solve(&board(s), &BoardPoss::new()).map(|b| get_encoded_board(&b, &'.', "").trim_end().to_string())
}

#[test]
fn solves_easy_board() {
    assert_eq!(solve_text(EASY).as_deref(), Some(EASY_SOLVED));
}

#[test]
fn solves_readme_board() {
    assert_eq!(solve_text(README).as_deref(), Some(README_SOLVED));
}

#[test]
fn solves_hard_board_with_guessing() {
    assert_eq!(solve_text(HARD).as_deref(), Some(HARD_SOLVED));
}

#[test]
fn refuses_board_with_duplicate_in_row() {
    let line = format!("55{}", ".".repeat(79));
    assert!(solve_text(&line).is_none());
}

#[test]
fn refuses_board_with_blocked_cell() {
    let line = format!("12345678.........9{}", ".".repeat(63));
    assert!(solve_text(&line).is_none());
}

#[test]
fn full_board_is_returned_unchanged() {
    // even when it breaks the rules: the loop is never entered
    let ones = "1".repeat(81);
    assert_eq!(solve_text(&ones), Some(ones.clone()));
    assert_eq!(solve_text(EASY_SOLVED).as_deref(), Some(EASY_SOLVED));
}

#[test]
fn solution_keeps_givens() {
    let given = board(HARD);
    let solved = try_solve(&given, &BoardPoss::new()).unwrap();
    for k in 0..81 {
        if given.fields[k].is_some() {
            assert_eq!(given.fields[k], solved.fields[k]);
        }
        assert!(solved.fields[k].is_some());
    }
}

#[test]
fn refused_when_table_excludes_the_only_solution() {
    // one empty cell whose digit is excluded by the table
    let mut line = EASY_SOLVED.to_string();
    line.replace_range(0..1, ".");
    let b = board(&line);
    let mut poss = BoardPoss::new();
    poss.fields[0].set(5, false);
    assert!(try_solve(&b, &poss).is_none());
    assert!(try_solve(&b, &BoardPoss::new()).is_some());
}

#[test]
fn check_rows_excludes_row_digits() {
    let b = board(EASY);
    let p = check_rows(&b, &BoardPoss::new()).unwrap();
    // row 0 holds 5, 3, 7
    let f = p.fields[2];
    assert_eq!(f.get(5), Some(false));
    assert_eq!(f.get(3), Some(false));
    assert_eq!(f.get(7), Some(false));
    assert_eq!(f.get(1), None);
    assert_eq!(f.amount, 3);
}

#[test]
fn check_columns_excludes_column_digits() {
    let b = board(EASY);
    let p = check_columns(&b, &BoardPoss::new()).unwrap();
    // column 0 holds 5, 6, 8, 4, 7
    let f = p.fields[18];
    for d in [5, 6, 8, 4, 7] {
        assert_eq!(f.get(d), Some(false));
    }
    assert_eq!(f.amount, 5);
}

#[test]
fn check_squares_excludes_box_digits() {
    let b = board(EASY);
    let p = check_squares(&b, &BoardPoss::new()).unwrap();
    // the first box holds 5, 3, 6, 9, 8
    let f = p.fields[10];
    for d in [5, 3, 6, 9, 8] {
        assert_eq!(f.get(d), Some(false));
    }
    assert_eq!(f.get(1), None);
    assert_eq!(f.amount, 5);
}

#[test]
fn checks_detect_duplicates() {
    let row = board(&format!("1.1{}", ".".repeat(78)));
    assert!(check_rows(&row, &BoardPoss::new()).is_none());
    assert!(check_columns(&row, &BoardPoss::new()).is_some());
    assert!(check_squares(&row, &BoardPoss::new()).is_none());
    let col = board(&format!("1{}1{}", ".".repeat(8), ".".repeat(71)));
    assert!(check_rows(&col, &BoardPoss::new()).is_some());
    assert!(check_columns(&col, &BoardPoss::new()).is_none());
    let far = board(&format!("1{}1{}", ".".repeat(40), ".".repeat(39)));
    assert!(check_squares(&far, &BoardPoss::new()).is_some());
}

#[test]
fn replace_known_fills_forced_cell() {
    let b0 = board(EASY);
    let p = check_rows(&b0, &BoardPoss::new()).unwrap();
    let p = check_columns(&b0, &p).unwrap();
    let p = check_squares(&b0, &p).unwrap();
    let mut b = b0;
    assert_eq!(replace_known(&mut b, &p), Some(true));
    assert_eq!(
        get_encoded_board(&b, &'.', ""),
        "53..7....6..195....98....6.8...6...34..853..17...2...6.6...7284...419.35....8..79\n"
    );
}

#[test]
fn replace_known_reports_blocked_cell() {
    let mut b = Board::new();
    let mut p = BoardPoss::new();
    for d in 1..10 {
        p.fields[4].set(d, false);
    }
    let mut f = PossField::new();
    for d in 1..9 {
        f.set(d, false);
    }
    p.fields[1] = f;
    assert_eq!(replace_known(&mut b, &p), None);
    // cells before the blocked one are filled, the rest untouched
    assert_eq!(b.fields[1], Some(9));
    assert!(b.fields[4].is_none());
}

#[test]
fn replace_known_without_forced_cell() {
    let mut b = Board::new();
    assert_eq!(replace_known(&mut b, &BoardPoss::new()), Some(false));
    assert!(!b.fields.iter().any(|f| f.is_some()));
}

#[test]
fn has_none_detects_empty_cells() {
    assert!(has_none(&board(EASY)));
    assert!(!has_none(&board(EASY_SOLVED)));
}

#[test]
fn dependence_counts_filled_cells_of_row_and_column() {
    let b = board(EASY);
    let d = calc_dependence(&b);
    for k in 0..81 {
        let (r, c) = (k / 9, k % 9);
        let row = (0..9).filter(|j| b.fields[9 * r + j].is_some()).count() as i32;
        let col = (0..9).filter(|j| b.fields[9 * j + c].is_some()).count() as i32;
        assert_eq!(d[k], row + col);
    }
    assert_eq!(&d[..20], &[8, 6, 4, 6, 9, 6, 4, 6, 8, 9, 7, 5, 7, 10, 7, 5, 7, 9, 8, 6]);
}

#[test]
fn dependence_of_single_filled_cell() {
    let mut b = Board::new();
    b.fields[1] = Some(5);
    let d = calc_dependence(&b);
    assert_eq!((d[1], d[0], d[10], d[20]), (2, 1, 1, 0));
}

#[test]
fn guess_picks_most_decided_cell() {
    let b = board(EASY);
    let p = check_rows(&b, &BoardPoss::new()).unwrap();
    let p = check_columns(&b, &p).unwrap();
    let p = check_squares(&b, &p).unwrap();
    assert_eq!(calc_guess(&b, &p), 40);
    assert_eq!(calc_guess(&board(EASY_SOLVED), &p), 0);
    assert_eq!(calc_guess(&Board::new(), &BoardPoss::new()), 0);
}

#[test]
fn guess_skips_cells_below_start_value() {
    let b = Board::new();
    let mut p = BoardPoss::new();
    for k in 0..81 {
        p.fields[k].amount = -5;
    }
    assert_eq!(calc_guess(&b, &p), 0);
    p.fields[17].amount = -1;
    assert_eq!(calc_guess(&b, &p), 17);
    p.fields[30].amount = 0;
    assert_eq!(calc_guess(&b, &p), 30);
}

#[test]
fn guess_breaks_ties_by_weight_then_position() {
    let mut b = Board::new();
    // fill row 8 except its last cell: the empty cells of row 8 weigh more
    for k in 72..80 {
        b.fields[k] = Some((k - 71) as u32);
    }
    let p = BoardPoss::new();
    // the heaviest empty cell is 80 (eight filled cells in its row), weight 8
    assert_eq!(calc_guess(&b, &p), 80);
}

#[test]
fn replace_known_refuses_same_digit_twice_in_a_unit() {
    // cells 0 and 1 (same row) both leave only digit 1
    let mut b = Board::new();
    let mut p = BoardPoss::new();
    for k in 0..2 {
        for d in 2..10 {
            p.fields[k].set(d, false);
        }
    }
    assert_eq!(replace_known(&mut b, &p), None);
    assert_eq!(b.fields[0], Some(1));
    assert!(b.fields[1].is_none());
}

#[test]
fn replace_known_refuses_digit_already_in_box() {
    let mut b = Board::new();
    b.fields[10] = Some(4);
    let mut p = BoardPoss::new();
    for d in 1..10 {
        if d != 4 {
            p.fields[0].set(d, false);
        }
    }
    assert_eq!(replace_known(&mut b, &p), None);
    assert!(b.fields[0].is_none());
}

#[test]
fn solves_board_that_needs_guessing() {
    let line = "..3456789456789..3789..3456.3456789.56789..3489..345673456789..6789..3459..345678";
    assert_eq!(
        solve_text(line).as_deref(),
        Some("123456789456789123789123456234567891567891234891234567345678912678912345912345678")
    );
}

#[test]
fn full_table_ignored_for_full_board() {
    let b = board(EASY_SOLVED);
    let mut p = BoardPoss::new();
    p.fields[3].set(2, true);
    let r = try_solve(&b, &p).unwrap();
    assert_eq!(r.fields, b.fields);
}
