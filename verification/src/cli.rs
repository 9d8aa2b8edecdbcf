//! The command line's options, and the decisions of the `print` and `solve`
//! commands: which line to read next, what to do with it, and the output text.
use vstd::prelude::*;
use crate::board::{Board, BoardPoss};
use crate::io::{BoardReadError, make_board, get_formatted_board, get_encoded_board, grid_text,
    encoded_cells, line_fits, line_accepted, read_cells, head_chars};
use crate::search::{search_gives, open_table, entries_of};
use crate::solver::{try_solve, has_solution, lemma_fresh_table, no_duplicates, is_solution,
    board_digits};

verus! {

/// `std::path::PathBuf`, carried in the options as given.
#[verifier::external_type_specification]
#[verifier::external_body]
pub struct ExPathBuf(std::path::PathBuf);

/// The options shared by both commands.
pub struct Shared {
    pub input_file_pos: Option<std::path::PathBuf>,
    pub input_file_opt: Option<std::path::PathBuf>,
    pub input_raw: Option<String>,
    pub output_file_pos: Option<std::path::PathBuf>,
    pub output_file_opt: Option<std::path::PathBuf>,
    pub text_out: bool,
    pub formated: bool,
    pub amount: usize,
    pub delimeter: char,
    pub delimeter_in: char,
    pub line_end_in: String,
    pub line_end_out: String,
}

/// The two commands: solve the boards read, or print them as read.
pub enum Commands {
    Solve(Shared),
    Print(Shared),
}

/// The parsed command line.
pub struct Cli {
    pub command: Commands,
}

/// The value of a sequence of ASCII decimal digits.
pub open spec fn digits_value(cs: Seq<char>) -> int
    decreases cs.len(),
{
    if cs.len() == 0 {
        0
    } else {
        digits_value(cs.drop_last()) * 10 + (cs.last() as int - 48)
    }
}

/// Every character is an ASCII decimal digit.
pub open spec fn all_digits(cs: Seq<char>) -> bool {
    forall|i: int| 0 <= i < cs.len() ==> 48 <= #[trigger] cs[i] as u32 <= 57
}

/// The integer that `cs` writes as an optional `+` or `-` followed by one or more
/// decimal digits; `None` for any other text.
pub open spec fn integer_text_value(cs: Seq<char>) -> Option<int> {
    if cs.len() > 0 && (cs[0] == '+' || cs[0] == '-') {
        if cs.len() > 1 && all_digits(cs.drop_first()) {
            if cs[0] == '-' {
                Some(-digits_value(cs.drop_first()))
            } else {
                Some(digits_value(cs.drop_first()))
            }
        } else {
            None
        }
    } else if cs.len() > 0 && all_digits(cs) {
        Some(digits_value(cs))
    } else {
        None
    }
}

/// The text parses as an `i32`.
pub open spec fn parses_as_i32(cs: Seq<char>) -> bool {
    integer_text_value(cs) matches Some(v) && i32::MIN <= v <= i32::MAX
}

/// The message of the error that `str::parse::<i32>` gives for the text `s`.
pub uninterp spec fn i32_parse_message(s: Seq<char>) -> Seq<char>;

/// `str::parse::<i32>`, its error turned into its message by `to_string`. The
/// documentation: the text is an optional `+` or `-` sign followed by decimal digits
/// only, and the value must fit in an `i32`; this contract says exactly that. The
/// message is named, not spelled out: the documentation does not give its wording.
#[verifier::external_body]
fn parse_i32(s: &str) -> (r: Result<i32, String>)
    ensures
        r is Ok <==> parses_as_i32(s@),
        r matches Ok(v) ==> integer_text_value(s@) == Some(v as int),
        r matches Err(m) ==> m@ == i32_parse_message(s@),
{
    match s.parse::<i32>() {
        Ok(v) => Ok(v),
        Err(e) => Err(e.to_string()),
    }
}

/// Reads the number of lines to handle: a negative number means all of them
/// (`usize::MAX`). Text that is not an `i32` gives the parser's error message.
pub fn check_amount(s: &str) -> (r: Result<usize, String>)
    ensures
        r is Ok <==> parses_as_i32(s@),
        r matches Ok(n) ==> if integer_text_value(s@)->0 < 0 {
            n == usize::MAX
        } else {
            n == integer_text_value(s@)->0
        },
        r matches Err(m) ==> m@ == i32_parse_message(s@),
{
    let num1: i32 = match parse_i32(s) {
        Ok(u) => u,
        Err(e) => return Err(e),
    };
    if num1 < 0 {
        Ok(usize::MAX)
    } else {
        Ok(num1 as usize)
    }
}

/// What the `print` command does with an input line.
pub enum PrintStep {
    /// Enough boards are loaded: stop reading.
    Stop,
    /// The line is a board.
    Load(Board),
    /// The line is not a board; report it and go on.
    Skip(BoardReadError),
}

/// The `print` command's decision for the next line, `loaded` boards being loaded.
pub fn print_step(line: &str, shared: &Shared, loaded: usize) -> (r: PrintStep)
    ensures
        shared.amount <= loaded ==> r is Stop,
        loaded < shared.amount && !line_fits(line, shared.line_end_in@) ==> r matches PrintStep::Skip(
            BoardReadError::WrongLength,
        ),
        loaded < shared.amount && line_fits(line, shared.line_end_in@) && !line_accepted(
            line,
            shared.delimeter_in,
        ) ==> r matches PrintStep::Skip(BoardReadError::UnexpectedCharacter),
        loaded < shared.amount && line_fits(line, shared.line_end_in@) && line_accepted(
            line,
            shared.delimeter_in,
        ) ==> r is Load && r->Load_0.fields@ == read_cells(head_chars(line)),
{
    if shared.amount <= loaded {
        return PrintStep::Stop;
    }
    match make_board(line, &shared.delimeter_in, shared.line_end_in.as_str()) {
        Ok(b) => PrintStep::Load(b),
        Err(e) => PrintStep::Skip(e),
    }
}

/// What the `solve` command does with an input line.
pub enum SolveStep {
    /// Enough boards are solved: stop reading.
    Stop,
    /// The line is not a board; report it and go on.
    Skip(BoardReadError),
    /// The board was refused by the solver.
    Unsolved,
    /// The solver's result.
    Solved(Board),
}

/// What `solve_step` gives for `line` with `solved` boards solved:
/// - `Stop` once `amount` boards are solved;
/// - `Skip` with the reading error when the line is not a board;
/// - otherwise the answer of the search (`search`) from the board read and a table
///   that excludes nothing: `Unsolved` (only for a board without solution) or
///   `Solved(b)`, with `b` full, keeping the givens, and a solution whenever the
///   givens hold no digit twice in a row, column or box.
pub open spec fn solve_step_result(line: &str, shared: &Shared, solved: usize, r: SolveStep) -> bool {
    &&& shared.amount <= solved ==> r is Stop
    &&& solved < shared.amount && !line_fits(line, shared.line_end_in@) ==> r is Skip && r->Skip_0 is WrongLength
    &&& solved < shared.amount && line_fits(line, shared.line_end_in@) && !line_accepted(
        line,
        shared.delimeter_in,
    ) ==> r is Skip && r->Skip_0 is UnexpectedCharacter
    &&& solved < shared.amount && line_fits(line, shared.line_end_in@) && line_accepted(
        line,
        shared.delimeter_in,
    ) ==> {
        let given = read_cells(head_chars(line));
        &&& r is Unsolved || r is Solved
        &&& r is Unsolved ==> !has_solution(given) && search_gives(given, open_table(), None)
        &&& r is Solved ==> search_gives(given, open_table(), Some(r->Solved_0.fields@))
        &&& r is Solved ==> {
            let b = r->Solved_0;
            &&& b.wf()
            &&& forall|k: int| 0 <= k < 81 ==> #[trigger] b.fields@[k] is Some
            &&& forall|k: int|
                0 <= k < 81 && (#[trigger] given[k]) is Some ==> b.fields@[k] == given[k]
            &&& no_duplicates(given) ==> no_duplicates(b.fields@) && is_solution(
                board_digits(b.fields@),
            )
        }
    }
}

/// The `solve` command's decision for the next line, `solved` boards being solved:
/// read the board and run `try_solve` on it with a table that excludes nothing.
pub fn solve_step(line: &str, shared: &Shared, solved: usize) -> (r: SolveStep)
    ensures
        solve_step_result(line, shared, solved, r),
{
    if shared.amount <= solved {
        return SolveStep::Stop;
    }
    let board = match make_board(line, &shared.delimeter_in, shared.line_end_in.as_str()) {
        Ok(b) => b,
        Err(e) => return SolveStep::Skip(e),
    };
    let poss = BoardPoss::new();
    proof {
        lemma_open_table(poss);
    }
    match try_solve(&board, &poss) {
        Some(b) => SolveStep::Solved(b),
        None => {
            proof {
                lemma_fresh_table(board, poss);
            }
            SolveStep::Unsolved
        },
    }
}

/// The line that closes a board in the grid layout.
pub open spec fn board_separator() -> Seq<char> {
    seq![
        '-', '-', '-', '-', '-', '-', '-', '-', '-', '-', '-', '-', '-', '-', '-', '-', '-', '-', '-',
        '-', '-', '-', '-', '-', '-', '-', '-', '-', '\n',
    ]
}

/// The output text for one board: the grid followed by a line of dashes when
/// `formated` is set, the one-line form otherwise.
pub open spec fn rendered(board: Board, shared: &Shared) -> Seq<char> {
    if shared.formated {
        grid_text(board.fields@, shared.delimeter, 9) + board_separator()
    } else {
        encoded_cells(board.fields@, shared.delimeter, 81) + shared.line_end_out@ + seq!['\n']
    }
}

/// The output text for one board (see `rendered`).
pub fn render_board(board: &Board, shared: &Shared) -> (out: String)
    ensures
        out@ == rendered(*board, shared),
{
    if shared.formated {
        let mut out = get_formatted_board(board, &shared.delimeter);
        let sep = "----------------------------\n";
        proof {
            reveal_strlit("----------------------------\n");
            assert(sep@ =~= board_separator());
        }
        out.append(sep);
        out
    } else {
        get_encoded_board(board, &shared.delimeter, shared.line_end_out.as_str())
    }
}

/// The output texts of the first `n` boards, one after the other.
pub open spec fn rendered_all(boards: Seq<Board>, shared: &Shared, n: int) -> Seq<char>
    decreases n,
{
    if n <= 0 {
        seq![]
    } else {
        rendered_all(boards, shared, n - 1) + rendered(boards[n - 1], shared)
    }
}

/// The `print` command's output: the boards loaded, at most `amount` of them.
pub fn render_boards(boards: &Vec<Board>, shared: &Shared) -> (out: String)
    ensures
        out@ == rendered_all(
            boards@,
            shared,
            if boards@.len() < shared.amount {
                boards@.len() as int
            } else {
                shared.amount as int
            },
        ),
{
    let mut output = String::new();
    let mut i: usize = 0;
    while i < boards.len() && i < shared.amount
        invariant
            i <= boards@.len(),
            i <= shared.amount,
            output@ == rendered_all(boards@, shared, i as int),
        decreases boards@.len() - i,
    {
        let text = render_board(&boards[i], shared);
        output.append(text.as_str());
        i += 1;
    }
    output
}

/// The `solve` command's progress over its input lines: boards solved, lines that
/// count towards the total shown (lines that are not boards are taken off), lines
/// not yet handled, and the output text so far.
pub struct SolveRun {
    pub solved: usize,
    pub total: usize,
    pub lines_left: usize,
    pub output: String,
}

impl SolveRun {
    /// No more lines are left than count towards the total.
    pub open spec fn wf(&self) -> bool {
        self.lines_left <= self.total
    }

    /// The state before the first of `line_count` lines.
    pub fn new(line_count: usize) -> (r: SolveRun)
        ensures
            r.solved == 0,
            r.total == line_count,
            r.lines_left == line_count,
            r.output@ == Seq::<char>::empty(),
            r.wf(),
    {
        SolveRun { solved: 0, total: line_count, lines_left: line_count, output: String::new() }
    }

    /// Handles the next line (see `solve_step`): a line that is not a board is taken
    /// off the total, a solved board is counted and its text appended to the output.
    pub fn step(&mut self, line: &str, shared: &Shared) -> (r: SolveStep)
        requires
            old(self).wf(),
            old(self).lines_left > 0,
        ensures
            solve_step_result(line, shared, old(self).solved, r),
            final(self).wf(),
            final(self).lines_left == old(self).lines_left - 1,
            r is Stop || r is Unsolved ==> {
                &&& final(self).solved == old(self).solved
                &&& final(self).total == old(self).total
                &&& final(self).output@ == old(self).output@
            },
            r is Skip ==> {
                &&& final(self).solved == old(self).solved
                &&& final(self).total == old(self).total - 1
                &&& final(self).output@ == old(self).output@
            },
            r is Solved ==> {
                &&& final(self).solved == old(self).solved + 1
                &&& final(self).total == old(self).total
                &&& final(self).output@ == old(self).output@ + rendered(r->Solved_0, shared)
            },
    {
        let r = solve_step(line, shared, self.solved);
        self.lines_left = self.lines_left - 1;
        match &r {
            SolveStep::Skip(_) => {
                self.total = self.total - 1;
            },
            SolveStep::Solved(b) => {
                self.solved = self.solved + 1;
                let text = render_board(b, shared);
                self.output.append(text.as_str());
            },
            _ => {},
        }
        r
    }
}

/// A table that excludes nothing has the search's open table as its entries.
proof fn lemma_open_table(poss: BoardPoss)
    requires
        forall|k: int, e: int|
            0 <= k < 81 && 0 <= e < 9 ==> #[trigger] poss.fields@[k].fields@[e] == None::<bool>,
    ensures
        entries_of(poss.fields@) == open_table(),
{
    assert forall|k: int| 0 <= k < 81 implies #[trigger] entries_of(poss.fields@)[k] =~= open_table()[k] by {}
    assert(entries_of(poss.fields@) =~= open_table());
}

} // verus!
