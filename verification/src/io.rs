//! Reading a board from its one-line text form, and writing a board as text:
//! either that one-line form or a grid laid out by boxes.
use vstd::prelude::*;
use vstd::string::StringSliceAdditionalSpecFns;
use vstd::utf8::{decode_utf8, encode_utf8, is_char_boundary, encode_utf8_decode_utf8, char_u32_cast,
    is_ascii_chars, is_ascii_chars_encode_utf8, encode_utf8_valid_utf8, encode_utf8_first_scalar,
    is_char_boundary_start_end_of_seq, is_char_boundary_iff_is_leading_byte, valid_utf8_split,
    decode_utf8_split, decode_utf8_encode_utf8};
use crate::board::Board;
use crate::text::{decimal, digit_char, push_char, push_decimal};

verus! {

broadcast use vstd::array::group_array_axioms;

/// Why a line is not a board.
#[derive(Debug)]
pub enum BoardReadError {
    /// The line does not have 81 bytes plus the length of the expected line end, or
    /// its first 81 bytes do not end on a character boundary.
    WrongLength,
    /// One of the first 81 bytes' characters is neither a digit 1-9 nor the delimiter.
    UnexpectedCharacter,
}

/// The characters encoded by the first 81 bytes of `input`.
pub open spec fn head_chars(input: &str) -> Seq<char> {
    decode_utf8(input.spec_bytes().subrange(0, 81))
}

/// `c` is one of the digits 1 to 9.
pub open spec fn is_cell_digit(c: char) -> bool {
    '1' <= c <= '9'
}

/// `c` may stand in a board line: a digit 1 to 9, or the delimiter of empty cells.
pub open spec fn accepted_char(c: char, del: char) -> bool {
    is_cell_digit(c) || c == del
}

/// The cell a character stands for: its digit, or empty.
pub open spec fn cell_of_char(c: char) -> Option<u32> {
    if is_cell_digit(c) {
        Some((c as u32 - 48) as u32)
    } else {
        None
    }
}

/// The cells that the characters `cs` describe, row by row; cells past the end of
/// `cs` are empty.
pub open spec fn read_cells(cs: Seq<char>) -> Seq<Option<u32>> {
    Seq::new(81, |i: int| if i < cs.len() { cell_of_char(cs[i]) } else { None })
}

/// `input` has 81 bytes more than the UTF-8 encoding of `end`, and its first 81
/// bytes end on a character boundary.
pub open spec fn line_fits(input: &str, end: Seq<char>) -> bool {
    &&& input.spec_bytes().len() == 81 + encode_utf8(end).len()
    &&& is_char_boundary(input.spec_bytes(), 81)
}

/// Every character of the first 81 bytes of `input` is accepted.
pub open spec fn line_accepted(input: &str, del: char) -> bool {
    forall|i: int|
        0 <= i < head_chars(input).len() ==> accepted_char(#[trigger] head_chars(input)[i], del)
}

/// A UTF-8 encoding has at least as many bytes as characters.
pub proof fn lemma_encoding_not_shorter(cs: Seq<char>)
    ensures
        encode_utf8(cs).len() >= cs.len(),
    decreases cs.len(),
{
    if cs.len() > 0 {
        lemma_encoding_not_shorter(cs.drop_first());
    }
}

/// Reads a board from a line: 81 cells, row by row, each a digit from 1 to 9 or the
/// delimiter `del` for an empty cell, followed by as many bytes as `end` has (their
/// content is not checked). Lengths are counted in bytes; a line whose 81st byte
/// falls inside a character has the wrong length.
pub fn make_board(input: &str, del: &char, end: &str) -> (r: Result<Board, BoardReadError>)
    ensures
        !line_fits(input, end@) ==> r matches Err(BoardReadError::WrongLength),
        line_fits(input, end@) && !line_accepted(input, *del) ==> r matches Err(
            BoardReadError::UnexpectedCharacter,
        ),
        line_fits(input, end@) && line_accepted(input, *del) ==> r is Ok && r->Ok_0.fields@
            == read_cells(head_chars(input)),
        r matches Ok(b) ==> b.wf(),
{
    let mut board = Board::new();
    let n = input.as_bytes().len();
    let end_len = end.as_bytes().len();
    if n < 81 || n - 81 != end_len || !input.is_char_boundary(81) {
        return Err(BoardReadError::WrongLength);
    }
    let (head, _) = input.split_at(81);
    let count = head.unicode_len();
    proof {
        encode_utf8_decode_utf8(head@);
        lemma_encoding_not_shorter(head@);
        assert(head@ == head_chars(input));
    }
    let mut i: usize = 0;
    while i < count
        invariant
            count == head@.len(),
            count <= 81,
            head@ == head_chars(input),
            input.spec_bytes().len() == 81 + end.spec_bytes().len(),
            is_char_boundary(input.spec_bytes(), 81),
            i <= count,
            forall|j: int| 0 <= j < i ==> accepted_char(#[trigger] head@[j], *del),
            forall|j: int|
                0 <= j < 81 ==> #[trigger] board.fields@[j] == if j < i {
                    cell_of_char(head@[j])
                } else {
                    None
                },
        decreases count - i,
    {
        let c = head.get_char(i);
        if '1' <= c && c <= '9' {
            board.fields[i] = Some((c as u32) - 48);
        } else if c == *del {
            board.fields[i] = None;
        } else {
            proof {
                assert(!accepted_char(head_chars(input)[i as int], *del));
            }
            return Err(BoardReadError::UnexpectedCharacter);
        }
        i += 1;
    }
    proof {
        assert(board.fields@ =~= read_cells(head@));
    }
    Ok(board)
}

/// One cell as the grid shows it: the digit (or the delimiter) between two spaces.
pub open spec fn cell_text(cell: Option<u32>, del: char) -> Seq<char> {
    seq![' '] + match cell {
        Some(v) => decimal(v as nat),
        None => seq![del],
    } + seq![' ']
}

/// The first `n` cells of row `r` as the grid shows them, with one more space
/// before the fourth and the seventh cell.
pub open spec fn row_text(cells: Seq<Option<u32>>, del: char, r: int, n: int) -> Seq<char>
    decreases n,
{
    if n <= 0 {
        seq![]
    } else {
        row_text(cells, del, r, n - 1) + (if n - 1 == 3 || n - 1 == 6 {
            seq![' ']
        } else {
            seq![]
        }) + cell_text(cells[r * 9 + n - 1], del)
    }
}

/// The first `m` rows of the grid, each ended by a newline, with an empty line
/// before the fourth and the seventh row.
pub open spec fn grid_text(cells: Seq<Option<u32>>, del: char, m: int) -> Seq<char>
    decreases m,
{
    if m <= 0 {
        seq![]
    } else {
        grid_text(cells, del, m - 1) + (if m - 1 == 3 || m - 1 == 6 {
            seq!['\n']
        } else {
            seq![]
        }) + row_text(cells, del, m - 1, 9) + seq!['\n']
    }
}

/// The board as a grid of nine lines, with boxes set apart by spaces and empty lines.
pub fn get_formatted_board(board: &Board, del: &char) -> (out: String)
    ensures
        out@ == grid_text(board.fields@, *del, 9),
{
    let mut out = String::new();
    for i in 0usize..9
        invariant
            out@ == grid_text(board.fields@, *del, i as int),
    {
        let ghost start = out@;
        if i == 3 || i == 6 {
            push_char(&mut out, '\n');
        }
        let ghost row_start = out@;
        for j in 0usize..9
            invariant
                i < 9,
                out@ == row_start + row_text(board.fields@, *del, i as int, j as int),
        {
            if j == 3 || j == 6 {
                push_char(&mut out, ' ');
            }
            let val = board.fields[i * 9 + j];
            push_char(&mut out, ' ');
            match val {
                Some(v) => push_decimal(&mut out, v),
                None => push_char(&mut out, *del),
            }
            push_char(&mut out, ' ');
            proof {
                let sep: Seq<char> = if j == 3 || j == 6 {
                    seq![' ']
                } else {
                    seq![]
                };
                assert(out@ =~= row_start + row_text(board.fields@, *del, i as int, j as int) + sep
                    + cell_text(board.fields@[i * 9 + j], *del));
            }
        }
        push_char(&mut out, '\n');
        proof {
            assert(out@ =~= grid_text(board.fields@, *del, i + 1));
        }
    }
    out
}

/// One cell in the one-line form: its digits, or the delimiter.
pub open spec fn encoded_cell(cell: Option<u32>, del: char) -> Seq<char> {
    match cell {
        Some(v) => decimal(v as nat),
        None => seq![del],
    }
}

/// The first `n` cells in the one-line form.
pub open spec fn encoded_cells(cells: Seq<Option<u32>>, del: char, n: int) -> Seq<char>
    decreases n,
{
    if n <= 0 {
        seq![]
    } else {
        encoded_cells(cells, del, n - 1) + encoded_cell(cells[n - 1], del)
    }
}

/// The board in the one-line form: its 81 cells, then `end`, then a newline.
pub fn get_encoded_board(board: &Board, del: &char, end: &str) -> (out: String)
    ensures
        out@ == encoded_cells(board.fields@, *del, 81) + end@ + seq!['\n'],
{
    let mut out = String::new();
    for i in 0usize..81
        invariant
            out@ == encoded_cells(board.fields@, *del, i as int),
    {
        let ghost start = out@;
        match board.fields[i] {
            Some(n) => push_decimal(&mut out, n),
            None => push_char(&mut out, *del),
        }
        proof {
            assert(out@ =~= start + encoded_cell(board.fields@[i as int], *del));
        }
    }
    out.append(end);
    push_char(&mut out, '\n');
    out
}

/// Writing a board in the one-line form and reading it back gives the board again,
/// when its cells hold digits 1 to 9 and the delimiter is not such a digit.
pub proof fn lemma_encode_then_read(cells: Seq<Option<u32>>, del: char)
    requires
        cells.len() == 81,
        forall|k: int| 0 <= k < 81 ==> (#[trigger] cells[k] matches Some(d) ==> 1 <= d <= 9),
        !is_cell_digit(del),
    ensures
        encoded_cells(cells, del, 81).len() == 81,
        forall|i: int|
            0 <= i < 81 ==> accepted_char(#[trigger] encoded_cells(cells, del, 81)[i], del),
        read_cells(encoded_cells(cells, del, 81)) == cells,
{
    lemma_encoded_cells_digits(cells, del, 81);
    assert(read_cells(encoded_cells(cells, del, 81)) =~= cells);
}

/// With one-digit cells, the one-line form holds one character per cell.
proof fn lemma_encoded_cells_digits(cells: Seq<Option<u32>>, del: char, n: int)
    requires
        0 <= n <= 81,
        cells.len() == 81,
        forall|k: int| 0 <= k < 81 ==> (#[trigger] cells[k] matches Some(d) ==> 1 <= d <= 9),
        !is_cell_digit(del),
    ensures
        encoded_cells(cells, del, n).len() == n,
        forall|i: int|
            0 <= i < n ==> accepted_char(#[trigger] encoded_cells(cells, del, n)[i], del)
                && cell_of_char(encoded_cells(cells, del, n)[i]) == cells[i],
    decreases n,
{
    if n > 0 {
        lemma_encoded_cells_digits(cells, del, n - 1);
        let prev = encoded_cells(cells, del, n - 1);
        let last = encoded_cell(cells[n - 1], del);
        assert(last.len() == 1);
        assert(encoded_cells(cells, del, n) == prev + last);
        assert forall|i: int| 0 <= i < n implies accepted_char(
            #[trigger] encoded_cells(cells, del, n)[i],
            del,
        ) && cell_of_char(encoded_cells(cells, del, n)[i]) == cells[i] by {
            if i < n - 1 {
                assert(encoded_cells(cells, del, n)[i] == prev[i]);
            } else {
                assert(encoded_cells(cells, del, n)[i] == last[0]);
            }
        }
    }
}

/// Reading a line of 81 accepted characters and writing the board in the one-line
/// form gives the line back.
pub proof fn lemma_read_then_encode(cs: Seq<char>, del: char)
    requires
        cs.len() == 81,
        forall|i: int| 0 <= i < 81 ==> accepted_char(#[trigger] cs[i], del),
    ensures
        encoded_cells(read_cells(cs), del, 81) == cs,
{
    lemma_read_then_encode_prefix(cs, del, 81);
    assert(cs.subrange(0, 81) =~= cs);
}

/// Prefix form of `lemma_read_then_encode`.
proof fn lemma_read_then_encode_prefix(cs: Seq<char>, del: char, n: int)
    requires
        0 <= n <= 81,
        cs.len() == 81,
        forall|i: int| 0 <= i < 81 ==> accepted_char(#[trigger] cs[i], del),
    ensures
        encoded_cells(read_cells(cs), del, n) == cs.subrange(0, n),
    decreases n,
{
    if n > 0 {
        lemma_read_then_encode_prefix(cs, del, n - 1);
        let c = cs[n - 1];
        if is_cell_digit(c) {
            char_u32_cast(c, c as u32);
            assert(digit_char((c as u32 - 48) as nat) == c);
        }
        assert(encoded_cell(read_cells(cs)[n - 1], del) =~= seq![c]);
        assert(cs.subrange(0, n) =~= cs.subrange(0, n - 1) + seq![c]);
    }
}

/// The UTF-8 encoding of a concatenation is the concatenation of the encodings.
pub proof fn lemma_encode_concat(x: Seq<char>, y: Seq<char>)
    ensures
        encode_utf8(x + y) == encode_utf8(x) + encode_utf8(y),
    decreases x.len(),
{
    if x.len() == 0 {
        assert(x + y =~= y);
        assert(encode_utf8(x) + encode_utf8(y) =~= encode_utf8(y));
    } else {
        lemma_encode_concat(x.drop_first(), y);
        assert((x + y).drop_first() =~= x.drop_first() + y);
        assert((x + y)[0] == x[0]);
        assert(encode_utf8(x + y) =~= encode_utf8(x) + encode_utf8(y));
    }
}

/// Where a character sequence splits into `x` and `y`, its UTF-8 encoding splits on
/// a character boundary, and the bytes before that boundary decode to `x`.
pub proof fn lemma_encode_split(x: Seq<char>, y: Seq<char>)
    ensures
        is_char_boundary(encode_utf8(x + y), encode_utf8(x).len() as int),
        decode_utf8(encode_utf8(x + y).subrange(0, encode_utf8(x).len() as int)) == x,
{
    lemma_encode_concat(x, y);
    let bytes = encode_utf8(x + y);
    let n = encode_utf8(x).len() as int;
    encode_utf8_valid_utf8(x + y);
    assert(bytes.subrange(0, n) =~= encode_utf8(x));
    encode_utf8_decode_utf8(x);
    if y.len() == 0 {
        assert(n == bytes.len());
        is_char_boundary_start_end_of_seq(bytes);
    } else {
        encode_utf8_first_scalar(y);
        lemma_encoding_not_shorter(y);
        assert(bytes[n] == encode_utf8(y)[0]);
        is_char_boundary_iff_is_leading_byte(bytes, n);
    }
}

/// The characters of a board line are ASCII when its delimiter is.
proof fn lemma_accepted_ascii(cs: Seq<char>, del: char)
    requires
        '\0' <= del <= '\u{7f}',
        forall|i: int| 0 <= i < cs.len() ==> accepted_char(#[trigger] cs[i], del),
    ensures
        is_ascii_chars(cs),
{
    assert forall|i: int| 0 <= i < cs.len() implies '\0' <= #[trigger] cs[i] <= '\u{7f}' by {
        assert(accepted_char(cs[i], del));
    }
}

/// Writing a board as a line and reading that line back (without its final newline)
/// gives the board again, when its cells hold digits 1 to 9 and the delimiter is an
/// ASCII character other than such a digit: the line fits, is accepted, and reads as
/// the board. With `make_board`'s contract: it returns `Ok` of the board.
pub proof fn lemma_line_of_board(line: &str, cells: Seq<Option<u32>>, del: char, end: Seq<char>)
    requires
        cells.len() == 81,
        forall|k: int| 0 <= k < 81 ==> (#[trigger] cells[k] matches Some(d) ==> 1 <= d <= 9),
        '\0' <= del <= '\u{7f}',
        !is_cell_digit(del),
        line@ == encoded_cells(cells, del, 81) + end,
    ensures
        line_fits(line, end),
        line_accepted(line, del),
        read_cells(head_chars(line)) == cells,
{
    let x = encoded_cells(cells, del, 81);
    lemma_encode_then_read(cells, del);
    lemma_accepted_ascii(x, del);
    is_ascii_chars_encode_utf8(x);
    lemma_encode_split(x, end);
    lemma_encode_concat(x, end);
    assert(head_chars(line) == x);
}

/// Reading a line with an ASCII delimiter and writing the board back as a line gives
/// the line's first 81 characters again. With `make_board`'s and
/// `get_encoded_board`'s contracts: the line written is those characters, then the
/// line end, then a newline.
pub proof fn lemma_board_of_line(line: &str, del: char, end: Seq<char>)
    requires
        line_fits(line, end),
        line_accepted(line, del),
        '\0' <= del <= '\u{7f}',
    ensures
        head_chars(line).len() == 81,
        head_chars(line) == line@.subrange(0, 81),
        encoded_cells(read_cells(head_chars(line)), del, 81) == line@.subrange(0, 81),
{
    let bytes = line.spec_bytes();
    let first = bytes.subrange(0, 81);
    let h = head_chars(line);
    encode_utf8_valid_utf8(line@);
    valid_utf8_split(bytes, 81);
    decode_utf8_encode_utf8(first);
    lemma_accepted_ascii(h, del);
    is_ascii_chars_encode_utf8(h);
    assert(h.len() == 81);
    encode_utf8_decode_utf8(line@);
    decode_utf8_split(bytes, 81);
    assert(line@ == h + decode_utf8(bytes.subrange(81, bytes.len() as int)));
    assert(line@.subrange(0, 81) =~= h);
    lemma_read_then_encode(h, del);
}

/// Only the length of what follows the first 81 bytes matters: a line made of an
/// 81-byte text `head` followed by any `tail` as long as `end` fits and reads just
/// as `head` alone does with an empty line end.
pub proof fn lemma_tail_ignored(head: &str, tail: &str, line: &str, end: Seq<char>)
    requires
        head.spec_bytes().len() == 81,
        line@ == head@ + tail@,
        encode_utf8(tail@).len() == encode_utf8(end).len(),
    ensures
        line_fits(line, end),
        line_fits(head, Seq::<char>::empty()),
        head_chars(line) == head_chars(head),
{
    lemma_encode_split(head@, tail@);
    lemma_encode_concat(head@, tail@);
    encode_utf8_valid_utf8(head@);
    is_char_boundary_start_end_of_seq(head.spec_bytes());
    assert(head.spec_bytes().subrange(0, 81) =~= head.spec_bytes());
    encode_utf8_decode_utf8(head@);
    assert(encode_utf8(Seq::<char>::empty()) =~= Seq::<u8>::empty());
}

} // verus!
