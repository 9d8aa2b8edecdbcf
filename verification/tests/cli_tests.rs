use sudoku_solver::board::Board;
use sudoku_solver::cli::{
    check_amount, print_step, render_board, render_boards, solve_step, PrintStep, Shared,
    SolveRun, SolveStep,
};
use sudoku_solver::io::{make_board, BoardReadError};

const EASY: &str =
    "53..7....6..195....98....6.8...6...34..8.3..17...2...6.6....28....419..5....8..79";
const EASY_SOLVED: &str =
    "534678912672195348198342567859761423426853791713924856961537284287419635345286179";

fn options(amount: usize, formated: bool) -> Shared {
    Shared {
        input_file_pos: None,
        input_file_opt: None,
        input_raw: Some(EASY.to_string()),
        output_file_pos: None,
        output_file_opt: None,
        text_out: true,
        formated,
        amount,
        delimeter: '.',
        delimeter_in: '.',
        line_end_in: String::new(),
        line_end_out: String::new(),
    }
}

#[test]
fn check_amount_reads_numbers() {
    assert_eq!(check_amount("5"), Ok(5));
    assert_eq!(check_amount("+7"), Ok(7));
    assert_eq!(check_amount("0"), Ok(0));
    assert_eq!(check_amount("-1"), Ok(usize::MAX));
    assert_eq!(check_amount("-2147483648"), Ok(usize::MAX));
    assert_eq!(check_amount("2147483647"), Ok(2147483647));
}

#[test]
fn check_amount_reports_parse_errors() {
    assert_eq!(check_amount("abc"), Err("invalid digit found in string".to_string()));
    assert_eq!(check_amount(""), Err("cannot parse integer from empty string".to_string()));
    assert_eq!(check_amount("2147483648"), Err("number too large to fit in target type".to_string()));
    assert_eq!(check_amount(" 1"), Err("invalid digit found in string".to_string()));
    assert_eq!(check_amount("-"), Err("invalid digit found in string".to_string()));
}

#[test]
fn print_step_loads_and_stops() {
    let opts = options(1, false);
    match print_step(EASY, &opts, 0) {
        PrintStep::Load(b) => assert_eq!(b.fields[0], Some(5)),
        _ => panic!("expected a board"),
    }
    assert!(matches!(print_step(EASY, &opts, 1), PrintStep::Stop));
    assert!(matches!(print_step("12", &opts, 0), PrintStep::Skip(BoardReadError::WrongLength)));
}

#[test]
fn solve_step_solves_and_reports() {
    let opts = options(2, false);
    match solve_step(EASY, &opts, 0) {
        SolveStep::Solved(b) => assert_eq!(render_board(&b, &opts), format!("{}\n", EASY_SOLVED)),
        _ => panic!("expected a solution"),
    }
    let dup = format!("99{}", ".".repeat(79));
    assert!(matches!(solve_step(&dup, &opts, 1), SolveStep::Unsolved));
    assert!(matches!(solve_step(EASY, &opts, 2), SolveStep::Stop));
    let bad = EASY.replacen('.', "x", 1);
    assert!(matches!(
        solve_step(&bad, &opts, 0),
        SolveStep::Skip(BoardReadError::UnexpectedCharacter)
    ));
}

#[test]
fn render_board_formatted_adds_separator() {
    let opts = options(1, true);
    let b = make_board(EASY, &'.', "").unwrap();
    let text = render_board(&b, &opts);
    assert!(text.ends_with("\n----------------------------\n"));
    assert!(text.starts_with(" 5  3  .   .  7  .   .  .  . \n"));
}

#[test]
fn render_board_encoded_uses_line_end() {
    let mut opts = options(1, false);
    opts.line_end_out = ";".to_string();
    opts.delimeter = '0';
    let b = make_board(EASY, &'.', "").unwrap();
    assert_eq!(render_board(&b, &opts), format!("{};\n", EASY.replace('.', "0")));
}

#[test]
fn render_boards_stops_at_amount() {
    let b = make_board(EASY, &'.', "").unwrap();
    let boards = vec![b, Board::new(), b];
    let two = render_boards(&boards, &options(2, false));
    assert_eq!(two, format!("{}\n{}\n", EASY, ".".repeat(81)));
    let all = render_boards(&boards, &options(usize::MAX, false));
    assert_eq!(all.lines().count(), 3);
    assert_eq!(render_boards(&boards, &options(0, false)), "");
}

#[test]
fn solve_run_collects_output() {
    let opts = options(1, false);
    let lines = ["abc", ".23456789456789123789123456234567891567891234891234567345678912678912345912345678", EASY];
    let mut run = SolveRun::new(lines.len());
    assert!(matches!(run.step(lines[0], &opts), SolveStep::Skip(BoardReadError::WrongLength)));
    assert_eq!(run.total, 2);
    assert!(matches!(run.step(lines[1], &opts), SolveStep::Solved(_)));
    assert_eq!(run.solved, 1);
    assert!(matches!(run.step(lines[2], &opts), SolveStep::Stop));
    assert_eq!(
        run.output,
        "123456789456789123789123456234567891567891234891234567345678912678912345912345678\n"
    );
    assert_eq!(run.lines_left, 0);
}

#[test]
fn solve_run_counts_unsolved_boards() {
    let opts = options(5, true);
    let mut run = SolveRun::new(2);
    let dup = format!("99{}", ".".repeat(79));
    assert!(matches!(run.step(&dup, &opts), SolveStep::Unsolved));
    assert_eq!(run.solved, 0);
    assert_eq!(run.total, 2);
    assert!(matches!(run.step(EASY, &opts), SolveStep::Solved(_)));
    assert!(run.output.ends_with("----------------------------\n"));
}
