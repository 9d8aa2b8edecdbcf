//! The solver: exclusion of the digits present in each row, column and box,
//! filling of cells with one digit left, and guessing with backtracking.
use vstd::prelude::*;
use crate::board::{Board, BoardPoss, PossField};
use crate::count::{count_upto, lemma_count_two_witnesses, lemma_count_witness, lemma_count_positive,
    lemma_count_two_positive};
use crate::search::{entries_of, excluded_table, filled_upto, forced_of, guess_cell, guessed_board,
    guess_excluded, is_full, is_guess_cell, leads_to, lemma_guess_cell_unique, lemma_leads_to_answer,
    lemma_leads_to_refl, lemma_leads_to_trans, lemma_fill_entries, lemma_round_fills, lemma_round_full,
    lemma_round_guess_found, lemma_round_guess_refused, lemma_round_refuses, ranks_over,
    round_guesses, search, search_gives};
use crate::units::{unit_cell, unit_of, pos_in_unit, lemma_unit_cell, lemma_cell_unit,
    lemma_unit_cells_distinct, cell_index, unit_index};

verus! {

broadcast use vstd::array::group_array_axioms;

/// Predicate "the `a`-th cell of unit `u` holds digit `d`".
pub open spec fn holds_digit_at(cells: Seq<Option<u32>>, u: int, d: u32) -> spec_fn(int) -> bool {
    |a: int| cells[unit_cell(u, a)] == Some(d)
}

/// How many cells of unit `u` hold digit `d`.
pub open spec fn digit_count(cells: Seq<Option<u32>>, u: int, d: u32) -> nat {
    count_upto(holds_digit_at(cells, u, d), 9)
}

/// Digit `d` occurs in unit `u`.
pub open spec fn unit_has_digit(cells: Seq<Option<u32>>, u: int, d: u32) -> bool {
    digit_count(cells, u, d) >= 1
}

/// Some digit from 1 to 9 occurs twice in unit `u`.
pub open spec fn unit_has_duplicate(cells: Seq<Option<u32>>, u: int) -> bool {
    exists|d: u32| 1 <= d <= 9 && #[trigger] digit_count(cells, u, d) >= 2
}

/// `after` is `before` with every digit present in unit `u` excluded, and its
/// `amount` recounted.
pub open spec fn excluded_by_unit(
    before: PossField,
    after: PossField,
    cells: Seq<Option<u32>>,
    u: int,
) -> bool {
    &&& forall|e: int|
        0 <= e < 9 ==> #[trigger] after.fields@[e] == if unit_has_digit(cells, u, (e + 1) as u32) {
            Some(false)
        } else {
            before.fields@[e]
        }
    &&& after.wf()
}

/// Largest of nine counts.
fn max_count(counts: &[usize; 9]) -> (m: usize)
    ensures
        forall|e: int| 0 <= e < 9 ==> counts@[e] <= m,
        exists|e: int| 0 <= e < 9 && counts@[e] == m,
{
    let mut m: usize = counts[0];
    for e in 1..9
        invariant
            forall|e2: int| 0 <= e2 < e ==> counts@[e2] <= m,
            exists|e2: int| 0 <= e2 < e && counts@[e2] == m,
    {
        if counts[e] > m {
            m = counts[e];
        }
    }
    m
}

/// Excludes, in every cell of unit `u`, the digits that the unit holds, and tells
/// whether a digit occurs twice in it. Cells outside the unit are left alone.
fn exclude_unit(board: &Board, poss: &mut BoardPoss, u: usize) -> (dup: bool)
    requires
        board.wf(),
        u < 27,
    ensures
        dup == unit_has_duplicate(board.fields@, u as int),
        forall|a: int|
            0 <= a < 9 ==> excluded_by_unit(
                old(poss).fields@[unit_cell(u as int, a)],
                #[trigger] final(poss).fields@[unit_cell(u as int, a)],
                board.fields@,
                u as int,
            ),
        forall|k: int|
            0 <= k < 81 && (forall|a: int| 0 <= a < 9 ==> unit_cell(u as int, a) != k)
                ==> #[trigger] final(poss).fields@[k] == old(poss).fields@[k],
{
    let ghost cells = board.fields@;
    let ghost before = poss.fields@;
    let mut num_count: [usize; 9] = [0; 9];
    let mut not_possible = PossField::new();
    for a in 0..9
        invariant
            board.wf(),
            cells == board.fields@,
            u < 27,
            forall|e: int|
                0 <= e < 9 ==> #[trigger] num_count@[e] == count_upto(
                    holds_digit_at(cells, u as int, (e + 1) as u32),
                    a as int,
                ),
            forall|e: int| 0 <= e < 9 ==> #[trigger] num_count@[e] <= a,
            forall|e: int|
                0 <= e < 9 ==> #[trigger] not_possible.fields@[e] == if num_count@[e] >= 1 {
                    Some(false)
                } else {
                    None
                },
    {
        let k = cell_index(u, a);
        let num = board.fields[k];
        proof {
            assert forall|e: int| 0 <= e < 9 implies #[trigger] count_upto(
                holds_digit_at(cells, u as int, (e + 1) as u32),
                a + 1,
            ) == count_upto(holds_digit_at(cells, u as int, (e + 1) as u32), a as int) + if num
                == Some((e + 1) as u32) {
                1nat
            } else {
                0nat
            } by {}
        }
        if let Some(d) = num {
            not_possible.set(d as usize, false);
            num_count[(d - 1) as usize] += 1;
        }
    }
    let ghost marks = not_possible.fields@;
    for a in 0..9
        invariant
            u < 27,
            not_possible.fields@ == marks,
            forall|e: int|
                0 <= e < 9 ==> #[trigger] marks[e] == if unit_has_digit(
                    cells,
                    u as int,
                    (e + 1) as u32,
                ) {
                    Some(false)
                } else {
                    None
                },
            forall|a2: int|
                0 <= a2 < a ==> excluded_by_unit(
                    before[unit_cell(u as int, a2)],
                    #[trigger] poss.fields@[unit_cell(u as int, a2)],
                    cells,
                    u as int,
                ),
            forall|k: int|
                0 <= k < 81 && (forall|a2: int| 0 <= a2 < a ==> unit_cell(u as int, a2) != k)
                    ==> #[trigger] poss.fields@[k] == before[k],
    {
        let k = cell_index(u, a);
        proof {
            assert forall|a2: int| 0 <= a2 < a implies unit_cell(u as int, a2) != k by {
                lemma_unit_cells_distinct(u as int, a2, a as int);
            }
        }
        let mut pf = poss.fields[k];
        pf.combine(not_possible);
        poss.fields[k] = pf;
        proof {
            assert forall|a2: int| 0 <= a2 < a + 1 implies excluded_by_unit(
                before[unit_cell(u as int, a2)],
                #[trigger] poss.fields@[unit_cell(u as int, a2)],
                cells,
                u as int,
            ) by {
                if a2 < a {
                    lemma_unit_cells_distinct(u as int, a2, a as int);
                }
            }
        }
    }
    let m = max_count(&num_count);
    proof {
        if m > 1 {
            let e = choose|e: int| 0 <= e < 9 && num_count@[e] == m;
            assert(digit_count(cells, u as int, (e + 1) as u32) >= 2);
        }
        if unit_has_duplicate(cells, u as int) {
            let d = choose|d: u32| 1 <= d <= 9 && #[trigger] digit_count(cells, u as int, d) >= 2;
            assert(num_count@[d - 1] >= 2);
        }
    }
    m > 1
}

/// Applies `exclude_unit` to the nine units of kind `kind` (0 rows, 1 columns,
/// 2 boxes); `None` when one of them holds a digit twice.
fn check_units(board: &Board, poss: &BoardPoss, kind: usize) -> (r: Option<BoardPoss>)
    requires
        board.wf(),
        kind < 3,
    ensures
        r is None <==> exists|u: int|
            9 * kind <= u < 9 * kind + 9 && #[trigger] unit_has_duplicate(board.fields@, u),
        r matches Some(p) ==> forall|k: int|
            0 <= k < 81 ==> excluded_by_unit(
                poss.fields@[k],
                #[trigger] p.fields@[k],
                board.fields@,
                unit_of(kind as int, k),
            ),
{
    let ghost cells = board.fields@;
    let mut new_poss = *poss;
    let mut u: usize = 9 * kind;
    while u < 9 * kind + 9
        invariant
            board.wf(),
            cells == board.fields@,
            kind < 3,
            9 * kind <= u <= 9 * kind + 9,
            forall|k: int|
                0 <= k < 81 ==> if unit_of(kind as int, k) < u {
                    excluded_by_unit(
                        poss.fields@[k],
                        #[trigger] new_poss.fields@[k],
                        cells,
                        unit_of(kind as int, k),
                    )
                } else {
                    new_poss.fields@[k] == poss.fields@[k]
                },
            forall|u2: int| 9 * kind <= u2 < u ==> !#[trigger] unit_has_duplicate(cells, u2),
        decreases 9 * kind + 9 - u,
    {
        let ghost prev = new_poss.fields@;
        let dup = exclude_unit(board, &mut new_poss, u);
        if dup {
            return None;
        }
        proof {
            assert forall|k: int| 0 <= k < 81 implies if unit_of(kind as int, k) < u + 1 {
                excluded_by_unit(
                    poss.fields@[k],
                    #[trigger] new_poss.fields@[k],
                    cells,
                    unit_of(kind as int, k),
                )
            } else {
                new_poss.fields@[k] == poss.fields@[k]
            } by {
                lemma_cell_unit(kind as int, k);
                if unit_of(kind as int, k) == u {
                    let a = pos_in_unit(kind as int, k);
                    assert(new_poss.fields@[unit_cell(u as int, a)] == new_poss.fields@[k]);
                } else {
                    assert forall|a: int| 0 <= a < 9 implies unit_cell(u as int, a) != k by {
                        lemma_unit_cell(u as int, a);
                        assert(u as int / 9 == kind);
                    }
                }
            }
        }
        u += 1;
    }
    Some(new_poss)
}

/// Excludes in each cell the digits of its row; `None` when a row holds a digit twice.
pub fn check_rows(board: &Board, poss: &BoardPoss) -> (r: Option<BoardPoss>)
    requires
        board.wf(),
    ensures
        r is None <==> exists|u: int| 0 <= u < 9 && #[trigger] unit_has_duplicate(board.fields@, u),
        r matches Some(p) ==> forall|k: int|
            0 <= k < 81 ==> excluded_by_unit(
                poss.fields@[k],
                #[trigger] p.fields@[k],
                board.fields@,
                unit_of(0, k),
            ),
{
    check_units(board, poss, 0)
}

/// Excludes in each cell the digits of its column; `None` when a column holds a digit twice.
pub fn check_columns(board: &Board, poss: &BoardPoss) -> (r: Option<BoardPoss>)
    requires
        board.wf(),
    ensures
        r is None <==> exists|u: int|
            9 <= u < 18 && #[trigger] unit_has_duplicate(board.fields@, u),
        r matches Some(p) ==> forall|k: int|
            0 <= k < 81 ==> excluded_by_unit(
                poss.fields@[k],
                #[trigger] p.fields@[k],
                board.fields@,
                unit_of(1, k),
            ),
{
    check_units(board, poss, 1)
}

/// Excludes in each cell the digits of its box; `None` when a box holds a digit twice.
pub fn check_squares(board: &Board, poss: &BoardPoss) -> (r: Option<BoardPoss>)
    requires
        board.wf(),
    ensures
        r is None <==> exists|u: int|
            18 <= u < 27 && #[trigger] unit_has_duplicate(board.fields@, u),
        r matches Some(p) ==> forall|k: int|
            0 <= k < 81 ==> excluded_by_unit(
                poss.fields@[k],
                #[trigger] p.fields@[k],
                board.fields@,
                unit_of(2, k),
            ),
{
    check_units(board, poss, 2)
}

/// Index of the first open (`None`) entry at or after `i`, or 9 when there is none.
pub open spec fn first_open_from(entries: Seq<Option<bool>>, i: int) -> int
    decreases 9 - i,
{
    if i < 0 || i >= 9 {
        9
    } else if entries[i] is None {
        i
    } else {
        first_open_from(entries, i + 1)
    }
}

/// The digit a field leaves when eight digits are excluded and one entry is open:
/// one more than the index of its first open entry.
pub open spec fn forced_digit(pf: PossField) -> Option<u32> {
    if pf.excluded_count() == 8 && first_open_from(pf.fields@, 0) < 9 {
        Some((first_open_from(pf.fields@, 0) + 1) as u32)
    } else {
        None
    }
}

/// All nine digits of the field are excluded.
pub open spec fn blocked(pf: PossField) -> bool {
    pf.excluded_count() == 9
}

/// The content of a cell after a filling pass: an empty cell with a forced digit takes it.
pub open spec fn after_fill(cell: Option<u32>, pf: PossField) -> Option<u32> {
    if cell is None && forced_digit(pf) is Some {
        forced_digit(pf)
    } else {
        cell
    }
}

/// The cells after a filling pass has handled the cells before `i`.
pub open spec fn filled_before(cells: Seq<Option<u32>>, poss: Seq<PossField>, i: int) -> Seq<
    Option<u32>,
> {
    Seq::new(81, |k: int| if k < i { after_fill(cells[k], poss[k]) } else { cells[k] })
}

/// Digit `d` occurs in the row, the column or the box of cell `k`.
pub open spec fn sees_digit(cells: Seq<Option<u32>>, k: int, d: u32) -> bool {
    exists|kind: int| 0 <= kind < 3 && #[trigger] unit_has_digit(cells, unit_of(kind, k), d)
}

/// The filling pass stops at cell `k`: it is empty and either all its digits are
/// excluded, or its forced digit already occurs in its row, column or box once the
/// cells before it are filled.
pub open spec fn stuck_at(cells: Seq<Option<u32>>, poss: Seq<PossField>, k: int) -> bool {
    &&& cells[k] is None
    &&& (blocked(poss[k]) || (forced_digit(poss[k]) matches Some(d) && sees_digit(
        filled_before(cells, poss, k),
        k,
        d,
    )))
}

/// First cell at or after `k` where the filling pass stops, or 81 when there is none.
pub open spec fn first_stuck_from(cells: Seq<Option<u32>>, poss: Seq<PossField>, k: int) -> int
    decreases 81 - k,
{
    if k < 0 || k >= 81 {
        81
    } else if stuck_at(cells, poss, k) {
        k
    } else {
        first_stuck_from(cells, poss, k + 1)
    }
}

/// What `first_open_from` finds is an open entry, and everything before it from `i` is decided.
pub proof fn lemma_first_open(entries: Seq<Option<bool>>, i: int)
    requires
        0 <= i <= 9,
    ensures
        i <= first_open_from(entries, i) <= 9,
        first_open_from(entries, i) < 9 ==> entries[first_open_from(entries, i)] is None,
        forall|e: int| i <= e < first_open_from(entries, i) ==> entries[e] is Some,
    decreases 9 - i,
{
    if i < 9 && entries[i] is Some {
        lemma_first_open(entries, i + 1);
    }
}

/// What `first_stuck_from` finds is a cell where the pass stops, and none comes before it from `k`.
pub proof fn lemma_first_stuck(cells: Seq<Option<u32>>, poss: Seq<PossField>, k: int)
    requires
        0 <= k <= 81,
    ensures
        k <= first_stuck_from(cells, poss, k) <= 81,
        first_stuck_from(cells, poss, k) < 81 ==> stuck_at(cells, poss, first_stuck_from(cells, poss, k)),
        forall|j: int| k <= j < first_stuck_from(cells, poss, k) ==> !#[trigger] stuck_at(cells, poss, j),
    decreases 81 - k,
{
    if k < 81 && !stuck_at(cells, poss, k) {
        lemma_first_stuck(cells, poss, k + 1);
    }
}

/// Whether unit `u` holds digit `d`.
fn unit_holds(board: &Board, u: usize, d: u32) -> (r: bool)
    requires
        u < 27,
    ensures
        r == unit_has_digit(board.fields@, u as int, d),
{
    for a in 0usize..9
        invariant
            u < 27,
            forall|a2: int| 0 <= a2 < a ==> board.fields@[unit_cell(u as int, a2)] != Some(d),
    {
        let k = cell_index(u, a);
        if let Some(x) = board.fields[k] {
            if x == d {
                proof {
                    lemma_count_positive(holds_digit_at(board.fields@, u as int, d), 9, a as int);
                }
                return true;
            }
        }
    }
    proof {
        if unit_has_digit(board.fields@, u as int, d) {
            lemma_count_witness(holds_digit_at(board.fields@, u as int, d), 9);
        }
    }
    false
}

/// Whether digit `d` occurs in the row, the column or the box of cell `k`.
fn digit_in_units(board: &Board, k: usize, d: u32) -> (r: bool)
    requires
        k < 81,
    ensures
        r == sees_digit(board.fields@, k as int, d),
{
    for kind in 0usize..3
        invariant
            k < 81,
            forall|kind2: int| 0 <= kind2 < kind ==> !#[trigger] unit_has_digit(board.fields@, unit_of(kind2, k as int), d),
    {
        let u = unit_index(kind, k);
        if unit_holds(board, u, d) {
            return true;
        }
    }
    false
}

/// One more than the index of the first open entry of `f`, or 10 when every entry is decided.
fn first_open(f: &PossField) -> (j: usize)
    ensures
        j == first_open_from(f.fields@, 0) + 1,
{
    let mut found: usize = 9;
    for e in 0..9
        invariant
            found <= 9,
            found < 9 ==> first_open_from(f.fields@, 0) == found,
            found == 9 ==> first_open_from(f.fields@, 0) == first_open_from(f.fields@, e as int),
    {
        if found == 9 && f.fields[e].is_none() {
            found = e;
        }
    }
    found + 1
}

/// One pass over the cells: every empty cell whose field leaves a single digit gets
/// that digit. The pass stops with `None` at the first empty cell whose digits are
/// all excluded, or whose single digit already occurs in its row, column or box
/// (cells filled earlier in the pass included), leaving the cells from there on as
/// they were. Otherwise it tells whether any cell was filled.
pub fn replace_known(board: &mut Board, poss: &BoardPoss) -> (r: Option<bool>)
    ensures
        forall|k: int|
            0 <= k < 81 ==> #[trigger] final(board).fields@[k] == if k < first_stuck_from(
                old(board).fields@,
                poss.fields@,
                0,
            ) {
                after_fill(old(board).fields@[k], poss.fields@[k])
            } else {
                old(board).fields@[k]
            },
        r is None <==> first_stuck_from(old(board).fields@, poss.fields@, 0) < 81,
        r matches Some(x) ==> x == exists|k: int|
            0 <= k < 81 && #[trigger] old(board).fields@[k] is None && forced_digit(
                poss.fields@[k],
            ) is Some,
        old(board).wf() ==> final(board).wf(),
        r is Some && no_duplicates(old(board).fields@) ==> no_duplicates(final(board).fields@),
{
    let ghost cells = board.fields@;
    let ghost ps = poss.fields@;
    let mut replaced = false;
    let mut i: usize = 0;
    while i < 81
        invariant
            i <= 81,
            ps == poss.fields@,
            cells == old(board).fields@,
            old(board).wf() ==> board.wf(),
            first_stuck_from(cells, ps, 0) == first_stuck_from(cells, ps, i as int),
            forall|k: int|
                0 <= k < 81 ==> #[trigger] board.fields@[k] == if k < i {
                    after_fill(cells[k], ps[k])
                } else {
                    cells[k]
                },
            replaced == exists|k: int|
                0 <= k < i && #[trigger] cells[k] is None && forced_digit(ps[k]) is Some,
        decreases 81 - i,
    {
        let f = poss.fields[i];
        if board.fields[i].is_some() {
            i += 1;
            continue;
        }
        let mut amount: i32 = 0;
        for j in 1..10
            invariant
                amount == count_upto(crate::board::excluded_at(f.fields@), j - 1),
                amount <= j - 1,
        {
            match f.get(j) {
                Some(false) => amount += 1,
                _ => (),
            }
        }
        proof {
            assert(f == ps[i as int]);
            assert(amount == f.excluded_count());
            assert(board.fields@[i as int] == cells[i as int]);
            assert(board.fields@ =~= filled_before(cells, ps, i as int));
        }
        if amount == 8 {
            let j = first_open(&f);
            proof {
                lemma_first_open(f.fields@, 0);
            }
            if j < 10 {
                if digit_in_units(board, i, j as u32) {
                    proof {
                        assert(stuck_at(cells, ps, i as int));
                    }
                    return None;
                }
                board.fields[i] = Some(j as u32);
                replaced = true;
            }
        } else if amount == 9 {
            proof {
                assert(stuck_at(cells, ps, i as int));
            }
            return None;
        }
        i += 1;
    }
    proof {
        lemma_first_stuck(cells, ps, 0);
        assert(board.fields@ =~= filled_before(cells, ps, 81));
        lemma_pass_no_duplicates(cells, ps);
    }
    Some(replaced)
}

/// Every cell in `0..81` is filled with a digit from 1 to 9.
pub open spec fn cells_wf(cells: Seq<Option<u32>>) -> bool {
    forall|k: int| 0 <= k < 81 ==> (#[trigger] cells[k] matches Some(d) ==> 1 <= d <= 9)
}

/// No row, column or box holds a digit twice.
pub open spec fn no_duplicates(cells: Seq<Option<u32>>) -> bool {
    forall|u: int| 0 <= u < 27 ==> !#[trigger] unit_has_duplicate(cells, u)
}

/// A pass that fills every cell it reaches keeps the units free of duplicates.
proof fn lemma_pass_no_duplicates(cells: Seq<Option<u32>>, poss: Seq<PossField>)
    requires
        first_stuck_from(cells, poss, 0) == 81,
    ensures
        no_duplicates(cells) ==> no_duplicates(filled_before(cells, poss, 81)),
{
    lemma_first_stuck(cells, poss, 0);
    let fin = filled_before(cells, poss, 81);
    if no_duplicates(cells) {
        assert forall|u: int| 0 <= u < 27 implies !#[trigger] unit_has_duplicate(fin, u) by {
            if unit_has_duplicate(fin, u) {
                let d = choose|d: u32| 1 <= d <= 9 && #[trigger] digit_count(fin, u, d) >= 2;
                let (a, c) = lemma_count_two_witnesses(holds_digit_at(fin, u, d), 9);
                lemma_unit_cell(u, a);
                lemma_unit_cell(u, c);
                lemma_unit_cells_distinct(u, a, c);
                let x = unit_cell(u, a);
                let y = unit_cell(u, c);
                if cells[x] is Some && cells[y] is Some {
                    lemma_count_two_positive(holds_digit_at(cells, u, d), 9, a, c);
                    assert(digit_count(cells, u, d) >= 2);
                    assert(unit_has_duplicate(cells, u));
                } else {
                    // the later of the cells the pass filled sees the other one
                    let (z, pz, w, pw) = if cells[x] is None && (cells[y] is Some || x > y) {
                        (x, a, y, c)
                    } else {
                        (y, c, x, a)
                    };
                    let before = filled_before(cells, poss, z);
                    assert(before[w] == fin[w]);
                    lemma_count_positive(holds_digit_at(before, u, d), 9, pw);
                    assert(unit_has_digit(before, unit_of(u / 9, z), d));
                    assert(forced_digit(poss[z]) == Some(d));
                    assert(stuck_at(cells, poss, z));
                }
            }
        }
    }
}

/// Predicate "cell `k` is empty".
pub open spec fn empty_at(cells: Seq<Option<u32>>) -> spec_fn(int) -> bool {
    |k: int| cells[k] is None
}

/// Number of empty cells.
pub open spec fn empty_count(cells: Seq<Option<u32>>) -> nat {
    count_upto(empty_at(cells), 81)
}

/// Whether the board has an empty cell.
pub fn has_none(board: &Board) -> (r: bool)
    ensures
        r == exists|k: int| 0 <= k < 81 && #[trigger] board.fields@[k] is None,
{
    for i in 0..81
        invariant
            forall|k: int| 0 <= k < i ==> #[trigger] board.fields@[k] is Some,
    {
        if board.fields[i].is_none() {
            return true;
        }
    }
    false
}

/// Predicate "the `a`-th cell of unit `u` is filled".
pub open spec fn filled_at(cells: Seq<Option<u32>>, u: int) -> spec_fn(int) -> bool {
    |a: int| cells[unit_cell(u, a)] is Some
}

/// Number of filled cells in row `r` (`0 <= r < 9`).
pub open spec fn row_filled(cells: Seq<Option<u32>>, r: int) -> nat {
    count_upto(filled_at(cells, r), 9)
}

/// Number of filled cells in column `c` (`0 <= c < 9`).
pub open spec fn column_filled(cells: Seq<Option<u32>>, c: int) -> nat {
    count_upto(filled_at(cells, 9 + c), 9)
}

/// The weight given to cell `k` when guessing: the filled cells of its row plus
/// those of its column.
pub open spec fn dependence(cells: Seq<Option<u32>>, k: int) -> int {
    (row_filled(cells, k / 9) + column_filled(cells, k % 9)) as int
}

/// The guessing weight of every cell (see `dependence`).
pub fn calc_dependence(board: &Board) -> (dep: [i32; 81])
    ensures
        forall|k: int| 0 <= k < 81 ==> #[trigger] dep@[k] == dependence(board.fields@, k),
{
    let ghost cells = board.fields@;
    let mut dependence: [i32; 81] = [0; 81];
    let mut row_amount: [i32; 9] = [0; 9];
    let mut column_amount: [i32; 9] = [0; 9];
    // rows and columns
    for i in 0usize..9
        invariant
            cells == board.fields@,
            forall|r: int|
                0 <= r < 9 ==> #[trigger] row_amount@[r] == if r < i {
                    row_filled(cells, r) as int
                } else {
                    0
                },
            forall|c: int|
                0 <= c < 9 ==> #[trigger] column_amount@[c] == if c < i {
                    column_filled(cells, c) as int
                } else {
                    0
                },
    {
        for j in 0usize..9
            invariant
                cells == board.fields@,
                i < 9,
                forall|r: int|
                    0 <= r < 9 ==> #[trigger] row_amount@[r] == if r < i {
                        row_filled(cells, r) as int
                    } else if r == i {
                        count_upto(filled_at(cells, r), j as int) as int
                    } else {
                        0
                    },
                forall|c: int|
                    0 <= c < 9 ==> #[trigger] column_amount@[c] == if c < i {
                        column_filled(cells, c) as int
                    } else if c == i {
                        count_upto(filled_at(cells, 9 + c), j as int) as int
                    } else {
                        0
                    },
        {
            proof {
                crate::count::lemma_count_bounded(filled_at(cells, i as int), j as int);
                crate::count::lemma_count_bounded(filled_at(cells, 9 + i), j as int);
                assert(count_upto(filled_at(cells, i as int), j + 1) == count_upto(
                    filled_at(cells, i as int),
                    j as int,
                ) + if cells[unit_cell(i as int, j as int)] is Some {
                    1nat
                } else {
                    0nat
                });
                assert(count_upto(filled_at(cells, 9 + i), j + 1) == count_upto(
                    filled_at(cells, 9 + i),
                    j as int,
                ) + if cells[unit_cell(9 + i, j as int)] is Some {
                    1nat
                } else {
                    0nat
                });
            }
            if board.fields[9 * i + j].is_some() {
                row_amount[i] += 1;
            }
            if board.fields[i + j * 9].is_some() {
                column_amount[i] += 1;
            }
        }
    }
    for i in 0usize..9
        invariant
            cells == board.fields@,
            forall|r: int| 0 <= r < 9 ==> #[trigger] row_amount@[r] == row_filled(cells, r) as int,
            forall|c: int| 0 <= c < 9 ==> #[trigger] column_amount@[c] == column_filled(cells, c) as int,
            forall|k: int|
                0 <= k < 81 ==> #[trigger] dependence@[k] == if k < (9 * i) as int {
                    crate::solver::dependence(cells, k)
                } else {
                    0
                },
    {
        for j in 0usize..9
            invariant
                cells == board.fields@,
                i < 9,
                forall|r: int|
                    0 <= r < 9 ==> #[trigger] row_amount@[r] == row_filled(cells, r) as int,
                forall|c: int|
                    0 <= c < 9 ==> #[trigger] column_amount@[c] == column_filled(cells, c) as int,
                forall|k: int|
                    0 <= k < 81 ==> #[trigger] dependence@[k] == if k < (9 * i + j) as int {
                        crate::solver::dependence(cells, k)
                    } else {
                        0
                    },
        {
            proof {
                crate::count::lemma_count_bounded(filled_at(cells, i as int), 9);
                crate::count::lemma_count_bounded(filled_at(cells, 9 + j), 9);
                assert((9 * i + j) / 9 == i && (9 * i + j) % 9 == j) by (nonlinear_arith)
                    requires
                        i < 9,
                        j < 9,
                ;
            }
            dependence[9 * i + j] = row_amount[i] + column_amount[j];
        }
    }
    dependence
}

/// Cell `k` ranks above cell `m` when guessing: more decided digits, or as many
/// and a larger weight.
pub open spec fn ranks_above(cells: Seq<Option<u32>>, poss: Seq<PossField>, k: int, m: int) -> bool {
    ||| poss[k].amount > poss[m].amount
    ||| (poss[k].amount == poss[m].amount && dependence(cells, k) > dependence(cells, m))
}

/// Cell `k` can be picked for a guess: it is empty and its `amount` is at least -1
/// (the value the search starts from).
pub open spec fn guess_candidate(cells: Seq<Option<u32>>, poss: Seq<PossField>, k: int) -> bool {
    cells[k] is None && poss[k].amount >= -1
}

/// The cell to guess: the first of the candidate cells that no other candidate
/// ranks above; 0 when there is no candidate. With a well-formed table every
/// empty cell is a candidate.
pub fn calc_guess(board: &Board, poss: &BoardPoss) -> (g: usize)
    ensures
        (exists|k: int| 0 <= k < 81 && #[trigger] guess_candidate(board.fields@, poss.fields@, k)) ==> {
            &&& g < 81
            &&& guess_candidate(board.fields@, poss.fields@, g as int)
            &&& forall|k: int|
                0 <= k < 81 && #[trigger] guess_candidate(board.fields@, poss.fields@, k) ==> !ranks_above(
                    board.fields@,
                    poss.fields@,
                    k,
                    g as int,
                )
            &&& forall|k: int|
                0 <= k < g && #[trigger] guess_candidate(board.fields@, poss.fields@, k) ==> ranks_above(
                    board.fields@,
                    poss.fields@,
                    g as int,
                    k,
                )
        },
        !(exists|k: int| 0 <= k < 81 && #[trigger] guess_candidate(board.fields@, poss.fields@, k))
            ==> g == 0,
{
    let ghost cells = board.fields@;
    let ghost ps = poss.fields@;
    let dependence = calc_dependence(board);
    let mut max_i: usize = 0;
    let mut max: i32 = -1;
    let mut max_depend: i32 = -1;
    for i in 0..81
        invariant
            cells == board.fields@,
            ps == poss.fields@,
            forall|k: int| 0 <= k < 81 ==> #[trigger] dependence@[k] == crate::solver::dependence(cells, k),
            !(exists|k: int| 0 <= k < i && #[trigger] guess_candidate(cells, ps, k)) ==> max == -1
                && max_i == 0 && max_depend == -1,
            (exists|k: int| 0 <= k < i && #[trigger] guess_candidate(cells, ps, k)) ==> {
                &&& max_i < i
                &&& guess_candidate(cells, ps, max_i as int)
                &&& max == ps[max_i as int].amount
                &&& max_depend == crate::solver::dependence(cells, max_i as int)
                &&& forall|k: int|
                    0 <= k < i && #[trigger] guess_candidate(cells, ps, k) ==> !ranks_above(
                        cells,
                        ps,
                        k,
                        max_i as int,
                    )
                &&& forall|k: int|
                    0 <= k < max_i && #[trigger] guess_candidate(cells, ps, k) ==> ranks_above(
                        cells,
                        ps,
                        max_i as int,
                        k,
                    )
            },
    {
        proof {
            assert(guess_candidate(cells, ps, i as int) == (cells[i as int] is None && ps[i as int].amount
                >= -1));
        }
        if board.fields[i].is_none() {
            let amount = poss.fields[i].amount;
            let depend = dependence[i];
            if (amount > max) || (amount == max && depend > max_depend) {
                max = amount;
                max_i = i;
                max_depend = depend;
            }
        }
    }
    max_i
}

/// `s` is a solved grid: 81 digits from 1 to 9, no digit twice in a row, column or box.
pub open spec fn is_solution(s: Seq<u32>) -> bool {
    &&& s.len() == 81
    &&& forall|k: int| 0 <= k < 81 ==> 1 <= #[trigger] s[k] <= 9
    &&& forall|u: int, a: int, c: int|
        0 <= u < 27 && 0 <= a < 9 && 0 <= c < 9 && a != c ==> #[trigger] s[unit_cell(u, a)]
            != #[trigger] s[unit_cell(u, c)]
}

/// `s` keeps every filled cell of `cells`.
pub open spec fn extends(s: Seq<u32>, cells: Seq<Option<u32>>) -> bool {
    forall|k: int| 0 <= k < 81 ==> (#[trigger] cells[k] matches Some(d) ==> s[k] == d)
}

/// `s` puts no excluded digit into an empty cell.
pub open spec fn respects(s: Seq<u32>, cells: Seq<Option<u32>>, poss: Seq<PossField>) -> bool {
    forall|k: int, e: int|
        0 <= k < 81 && 0 <= e < 9 && cells[k] is None && #[trigger] poss[k].fields@[e] == Some(
            false,
        ) ==> s[k] != e + 1
}

/// `s` is a solution that completes `board` and agrees with the exclusions of `poss`.
pub open spec fn completes(s: Seq<u32>, board: Board, poss: BoardPoss) -> bool {
    &&& is_solution(s)
    &&& extends(s, board.fields@)
    &&& respects(s, board.fields@, poss.fields@)
}

/// Every solution that completes `(b0, p0)` also completes `(b1, p1)`.
pub open spec fn keeps_solutions(b0: Board, p0: BoardPoss, b1: Board, p1: BoardPoss) -> bool {
    forall|s: Seq<u32>| #[trigger] completes(s, b0, p0) ==> completes(s, b1, p1)
}

/// No solution completes `(board, poss)`.
pub open spec fn unsolvable(board: Board, poss: BoardPoss) -> bool {
    forall|s: Seq<u32>| !#[trigger] completes(s, board, poss)
}

/// A unit that holds a digit twice leaves no solution.
pub proof fn lemma_duplicate_refutes(board: Board, poss: BoardPoss, u: int)
    requires
        0 <= u < 27,
        unit_has_duplicate(board.fields@, u),
    ensures
        unsolvable(board, poss),
{
    let cells = board.fields@;
    let d = choose|d: u32| 1 <= d <= 9 && #[trigger] digit_count(cells, u, d) >= 2;
    let (a, c) = lemma_count_two_witnesses(holds_digit_at(cells, u, d), 9);
    lemma_unit_cell(u, a);
    lemma_unit_cell(u, c);
    assert forall|s: Seq<u32>| !#[trigger] completes(s, board, poss) by {
        if completes(s, board, poss) {
            assert(cells[unit_cell(u, a)] == Some(d));
            assert(cells[unit_cell(u, c)] == Some(d));
            assert(s[unit_cell(u, a)] == d);
            assert(s[unit_cell(u, c)] == d);
        }
    }
}

/// Excluding the digits present in a unit loses no solution.
pub proof fn lemma_exclusion_keeps(board: Board, before: BoardPoss, after: BoardPoss, kind: int)
    requires
        0 <= kind < 3,
        forall|k: int|
            0 <= k < 81 ==> excluded_by_unit(
                before.fields@[k],
                #[trigger] after.fields@[k],
                board.fields@,
                unit_of(kind, k),
            ),
    ensures
        keeps_solutions(board, before, board, after),
{
    let cells = board.fields@;
    assert forall|s: Seq<u32>| #[trigger] completes(s, board, before) implies completes(
        s,
        board,
        after,
    ) by {
        assert forall|k: int, e: int|
            0 <= k < 81 && 0 <= e < 9 && cells[k] is None && #[trigger] after.fields@[k].fields@[e]
                == Some(false) implies s[k] != e + 1 by {
            let u = unit_of(kind, k);
            assert(excluded_by_unit(before.fields@[k], after.fields@[k], cells, u));
            if unit_has_digit(cells, u, (e + 1) as u32) {
                let a = lemma_count_witness(holds_digit_at(cells, u, (e + 1) as u32), 9);
                lemma_cell_unit(kind, k);
                lemma_unit_cell(u, a);
                let p = pos_in_unit(kind, k);
                assert(unit_cell(u, p) == k);
                assert(cells[unit_cell(u, a)] == Some((e + 1) as u32));
                assert(a != p);
                assert(s[unit_cell(u, a)] == e + 1);
                assert(s[unit_cell(u, p)] != s[unit_cell(u, a)]);
            } else {
                assert(before.fields@[k].fields@[e] == Some(false));
            }
        }
    }
}

/// The facts about a field's entries that follow from its excluded count.
pub proof fn lemma_field_counts(pf: PossField)
    requires
        pf.exclusions_only(),
    ensures
        pf.excluded_count() <= 9,
        pf.excluded_count() == 9 ==> forall|e: int| 0 <= e < 9 ==> pf.fields@[e] == Some(false),
        pf.excluded_count() < 9 ==> first_open_from(pf.fields@, 0) < 9,
        pf.excluded_count() == 8 ==> forall|e: int|
            0 <= e < 9 && pf.fields@[e] is None ==> e == first_open_from(pf.fields@, 0),
{
    let f = crate::board::excluded_at(pf.fields@);
    crate::count::lemma_count_bounded(f, 9);
    lemma_first_open(pf.fields@, 0);
    if pf.excluded_count() == 9 {
        assert forall|e: int| 0 <= e < 9 implies pf.fields@[e] == Some(false) by {
            if pf.fields@[e] != Some(false) {
                crate::count::lemma_count_missing_one(f, 9, e);
            }
        }
    }
    if pf.excluded_count() < 9 {
        if first_open_from(pf.fields@, 0) >= 9 {
            assert forall|e: int| 0 <= e < 9 implies #[trigger] f(e) by {
                assert(pf.fields@[e] is Some);
                assert(pf.fields@[e] != Some(true));
                assert(pf.fields@[e] == Some(false));
            }
            crate::count::lemma_count_all(f, 9);
        }
    }
    if pf.excluded_count() == 8 {
        let g = first_open_from(pf.fields@, 0);
        assert forall|e: int| 0 <= e < 9 && pf.fields@[e] is None implies e == g by {
            if e != g {
                if g < 9 {
                    crate::count::lemma_count_missing_two(f, 9, e, g);
                }
            }
        }
    }
}

/// An open entry of the table marks a digit absent from the cell's row, column and box.
pub open spec fn open_means_absent(cells: Seq<Option<u32>>, poss: Seq<PossField>) -> bool {
    forall|k: int, e: int|
        0 <= k < 81 && 0 <= e < 9 && #[trigger] poss[k].fields@[e] is None ==> !sees_digit(
            cells,
            k,
            (e + 1) as u32,
        )
}

/// A solution that agrees with the exclusions puts the forced digit into a forced cell.
pub proof fn lemma_forced_sound(s: Seq<u32>, cells: Seq<Option<u32>>, poss: BoardPoss, k: int)
    requires
        is_solution(s),
        respects(s, cells, poss.fields@),
        poss.exclusions_only(),
        0 <= k < 81,
        cells[k] is None,
        forced_digit(poss.fields@[k]) is Some,
    ensures
        s[k] == forced_digit(poss.fields@[k])->0,
{
    let pf = poss.fields@[k];
    lemma_field_counts(pf);
    let x = s[k] - 1;
    assert(0 <= x < 9);
    assert(poss.fields@[k].fields@[x] != Some(false));
    assert(pf.exclusions_only());
    assert(pf.fields@[x] != Some(true));
    if let Some(b) = pf.fields@[x] {
        if b {
            assert(pf.fields@[x] == Some(true));
        } else {
            assert(pf.fields@[x] == Some(false));
        }
    }
    assert(pf.fields@[x] is None);
}

/// Filling the forced cells loses no solution.
pub proof fn lemma_fill_keeps(b0: Board, b1: Board, poss: BoardPoss)
    requires
        poss.exclusions_only(),
        forall|k: int|
            0 <= k < 81 ==> #[trigger] b1.fields@[k] == after_fill(b0.fields@[k], poss.fields@[k]),
    ensures
        keeps_solutions(b0, poss, b1, poss),
{
    assert forall|s: Seq<u32>| #[trigger] completes(s, b0, poss) implies completes(s, b1, poss) by {
        assert forall|k: int| 0 <= k < 81 implies (#[trigger] b1.fields@[k] matches Some(d) ==> s[k]
            == d) by {
            if b0.fields@[k] is None && forced_digit(poss.fields@[k]) is Some {
                lemma_forced_sound(s, b0.fields@, poss, k);
            } else {
                assert(b1.fields@[k] == b0.fields@[k]);
            }
        }
        assert forall|k: int, e: int|
            0 <= k < 81 && 0 <= e < 9 && b1.fields@[k] is None && #[trigger] poss.fields@[k].fields@[e]
                == Some(false) implies s[k] != e + 1 by {
            assert(b1.fields@[k] == after_fill(b0.fields@[k], poss.fields@[k]));
        }
    }
}

/// An empty cell whose nine digits are all excluded leaves no solution.
pub proof fn lemma_blocked_refutes(board: Board, poss: BoardPoss, k: int)
    requires
        0 <= k < 81,
        board.fields@[k] is None,
        blocked(poss.fields@[k]),
        poss.exclusions_only(),
    ensures
        unsolvable(board, poss),
{
    lemma_field_counts(poss.fields@[k]);
    assert forall|s: Seq<u32>| !#[trigger] completes(s, board, poss) by {
        if completes(s, board, poss) {
            let x = s[k] - 1;
            assert(poss.fields@[k].fields@[x] == Some(false));
        }
    }
}

/// A cell where the filling pass stops leaves no solution.
pub proof fn lemma_stuck_refutes(board: Board, poss: BoardPoss, k: int)
    requires
        0 <= k < 81,
        stuck_at(board.fields@, poss.fields@, k),
        poss.exclusions_only(),
    ensures
        unsolvable(board, poss),
{
    let cells = board.fields@;
    if blocked(poss.fields@[k]) {
        lemma_blocked_refutes(board, poss, k);
    } else {
        let d = forced_digit(poss.fields@[k])->0;
        let before = filled_before(cells, poss.fields@, k);
        let kind = choose|kind: int| 0 <= kind < 3 && #[trigger] unit_has_digit(before, unit_of(kind, k), d);
        let u = unit_of(kind, k);
        lemma_cell_unit(kind, k);
        let a = lemma_count_witness(holds_digit_at(before, u, d), 9);
        lemma_unit_cell(u, a);
        let w = unit_cell(u, a);
        let p = pos_in_unit(kind, k);
        assert(u / 9 == kind);
        assert(before[k] is None);
        assert(a != p);
        assert forall|s: Seq<u32>| !#[trigger] completes(s, board, poss) by {
            if completes(s, board, poss) {
                lemma_forced_sound(s, cells, poss, k);
                if w < k && cells[w] is None {
                    lemma_forced_sound(s, cells, poss, w);
                }
                assert(s[w] == d);
                assert(s[unit_cell(u, p)] != s[unit_cell(u, a)]);
            }
        }
    }
}

/// Writing a digit absent from a cell's row, column and box into that empty cell
/// creates no duplicate.
pub proof fn lemma_guess_no_duplicates(cells: Seq<Option<u32>>, g: int, d: u32, after: Seq<Option<u32>>)
    requires
        cells.len() == 81,
        no_duplicates(cells),
        0 <= g < 81,
        cells[g] is None,
        !sees_digit(cells, g, d),
        after == cells.update(g, Some(d)),
    ensures
        no_duplicates(after),
{
    assert forall|u: int| 0 <= u < 27 implies !#[trigger] unit_has_duplicate(after, u) by {
        if unit_has_duplicate(after, u) {
            let d2 = choose|d2: u32| 1 <= d2 <= 9 && #[trigger] digit_count(after, u, d2) >= 2;
            let (a, c) = lemma_count_two_witnesses(holds_digit_at(after, u, d2), 9);
            lemma_unit_cell(u, a);
            lemma_unit_cell(u, c);
            lemma_unit_cells_distinct(u, a, c);
            let x = unit_cell(u, a);
            let y = unit_cell(u, c);
            if x == g {
                lemma_count_positive(holds_digit_at(cells, u, d), 9, c);
                assert(unit_has_digit(cells, unit_of(u / 9, g), d));
            } else if y == g {
                lemma_count_positive(holds_digit_at(cells, u, d), 9, a);
                assert(unit_has_digit(cells, unit_of(u / 9, g), d));
            } else {
                lemma_count_two_positive(holds_digit_at(cells, u, d2), 9, a, c);
                assert(digit_count(cells, u, d2) >= 2);
                assert(unit_has_duplicate(cells, u));
            }
        }
    }
}

/// The digits of a full board, 0 standing for an empty cell.
pub open spec fn board_digits(cells: Seq<Option<u32>>) -> Seq<u32> {
    Seq::new(81, |k: int| match cells[k] {
        Some(d) => d,
        None => 0,
    })
}

/// A full board with digits 1 to 9 and no duplicate in a row, column or box is a
/// solved grid, and a solution of itself.
pub proof fn lemma_solved_board(cells: Seq<Option<u32>>)
    requires
        cells.len() == 81,
        cells_wf(cells),
        forall|k: int| 0 <= k < 81 ==> #[trigger] cells[k] is Some,
        no_duplicates(cells),
    ensures
        is_solution(board_digits(cells)),
        extends(board_digits(cells), cells),
{
    let s = board_digits(cells);
    assert forall|u: int, a: int, c: int|
        0 <= u < 27 && 0 <= a < 9 && 0 <= c < 9 && a != c implies #[trigger] s[unit_cell(u, a)]
            != #[trigger] s[unit_cell(u, c)] by {
        lemma_unit_cell(u, a);
        lemma_unit_cell(u, c);
        if s[unit_cell(u, a)] == s[unit_cell(u, c)] {
            let d = s[unit_cell(u, a)];
            assert(cells[unit_cell(u, a)] is Some);
            assert(cells[unit_cell(u, c)] is Some);
            assert(cells[unit_cell(u, a)] == Some(d));
            assert(cells[unit_cell(u, c)] == Some(d));
            lemma_count_two_positive(holds_digit_at(cells, u, d), 9, a, c);
            assert(digit_count(cells, u, d) >= 2);
            assert(!unit_has_duplicate(cells, u));
        }
    }
}

/// Predicate "entry `x % 9` of the field of cell `x / 9` is open" over `0..729`.
pub open spec fn open_at(poss: Seq<PossField>) -> spec_fn(int) -> bool {
    |x: int| poss[x / 9].fields@[x % 9] is None
}

/// Number of open entries over the whole table.
pub open spec fn open_total(poss: Seq<PossField>) -> nat {
    count_upto(open_at(poss), 729)
}

/// Every entry open in `after` was open in `before`.
pub open spec fn only_narrows(before: Seq<PossField>, after: Seq<PossField>) -> bool {
    forall|k: int, e: int|
        0 <= k < 81 && 0 <= e < 9 && (#[trigger] after[k].fields@[e]) is None ==> before[k].fields@[e] is None
}

/// Narrowing the table closes entries: the open total does not grow, and it
/// shrinks when a given entry gets closed.
pub proof fn lemma_open_total(before: Seq<PossField>, after: Seq<PossField>, k: int, e: int)
    requires
        only_narrows(before, after),
    ensures
        open_total(after) <= open_total(before),
        0 <= k < 81 && 0 <= e < 9 && before[k].fields@[e] is None && after[k].fields@[e] is Some
            ==> open_total(after) < open_total(before),
{
    assert forall|x: int| 0 <= x < 729 && #[trigger] open_at(after)(x) implies open_at(before)(x) by {
        assert(0 <= x / 9 < 81 && 0 <= x % 9 < 9) by (nonlinear_arith)
            requires
                0 <= x < 729,
        ;
    }
    crate::count::lemma_count_mono(open_at(after), open_at(before), 729);
    if 0 <= k < 81 && 0 <= e < 9 && before[k].fields@[e] is None && after[k].fields@[e] is Some {
        let w = k * 9 + e;
        assert(w / 9 == k && w % 9 == e && 0 <= w < 729) by (nonlinear_arith)
            requires
                w == k * 9 + e,
                0 <= k < 81,
                0 <= e < 9,
        ;
        crate::count::lemma_count_strict(open_at(after), open_at(before), 729, w);
    }
}

/// Filling cells does not add empty cells, and filling an empty one removes one.
pub proof fn lemma_empty_count(before: Seq<Option<u32>>, after: Seq<Option<u32>>, k: int)
    requires
        forall|j: int| 0 <= j < 81 && #[trigger] after[j] is None ==> before[j] is None,
    ensures
        empty_count(after) <= empty_count(before),
        0 <= k < 81 && before[k] is None && after[k] is Some ==> empty_count(after) < empty_count(
            before,
        ),
{
    crate::count::lemma_count_mono(empty_at(after), empty_at(before), 81);
    if 0 <= k < 81 && before[k] is None && after[k] is Some {
        crate::count::lemma_count_strict(empty_at(after), empty_at(before), 81, k);
    }
}

/// `after` is `before` with every digit of the row, the column or the box of cell
/// `k` excluded, and its `amount` recounted.
pub open spec fn excluded_in_all_units(
    before: PossField,
    after: PossField,
    cells: Seq<Option<u32>>,
    k: int,
) -> bool {
    &&& forall|e: int|
        0 <= e < 9 ==> #[trigger] after.fields@[e] == if sees_digit(cells, k, (e + 1) as u32) {
            Some(false)
        } else {
            before.fields@[e]
        }
    &&& after.wf()
}

/// Excluding the digits of a cell's row, then its column, then its box excludes the
/// digits of all three.
pub proof fn lemma_three_exclusions(
    cells: Seq<Option<u32>>,
    p0: PossField,
    p1: PossField,
    p2: PossField,
    p3: PossField,
    k: int,
)
    requires
        excluded_by_unit(p0, p1, cells, unit_of(0, k)),
        excluded_by_unit(p1, p2, cells, unit_of(1, k)),
        excluded_by_unit(p2, p3, cells, unit_of(2, k)),
    ensures
        excluded_in_all_units(p0, p3, cells, k),
{
    assert forall|e: int| 0 <= e < 9 implies #[trigger] p3.fields@[e] == if sees_digit(
        cells,
        k,
        (e + 1) as u32,
    ) {
        Some(false)
    } else {
        p0.fields@[e]
    } by {
        let d = (e + 1) as u32;
        if !sees_digit(cells, k, d) {
            assert(!unit_has_digit(cells, unit_of(0, k), d));
            assert(!unit_has_digit(cells, unit_of(1, k), d));
            assert(!unit_has_digit(cells, unit_of(2, k), d));
        }
        assert(p3.fields@[e] == (if unit_has_digit(cells, unit_of(2, k), d) { Some(false) } else { p2.fields@[e] }));
        assert(p2.fields@[e] == (if unit_has_digit(cells, unit_of(1, k), d) { Some(false) } else { p1.fields@[e] }));
        assert(p1.fields@[e] == (if unit_has_digit(cells, unit_of(0, k), d) { Some(false) } else { p0.fields@[e] }));
    }
}

/// Runs the exclusions of rows, columns and boxes over `poss`; `None` when a unit
/// holds a digit twice.
fn check_all(board: &Board, poss: &BoardPoss) -> (r: Option<BoardPoss>)
    requires
        board.wf(),
        poss.exclusions_only(),
    ensures
        r is None ==> unsolvable(*board, *poss),
        r is None <==> !no_duplicates(board.fields@),
        r matches Some(p) ==> {
            &&& p.wf()
            &&& p.exclusions_only()
            &&& only_narrows(poss.fields@, p.fields@)
            &&& keeps_solutions(*board, *poss, *board, p)
            &&& no_duplicates(board.fields@)
            &&& open_means_absent(board.fields@, p.fields@)
            &&& forall|k: int|
                0 <= k < 81 ==> #[trigger] excluded_in_all_units(
                    poss.fields@[k],
                    p.fields@[k],
                    board.fields@,
                    k,
                )
        },
{
    let p1 = match check_rows(board, poss) {
        Some(p) => p,
        None => {
            proof {
                let u = choose|u: int| 0 <= u < 9 && #[trigger] unit_has_duplicate(board.fields@, u);
                lemma_duplicate_refutes(*board, *poss, u);
            }
            return None;
        },
    };
    proof {
        lemma_exclusion_keeps(*board, *poss, p1, 0);
    }
    let p2 = match check_columns(board, &p1) {
        Some(p) => p,
        None => {
            proof {
                let u = choose|u: int| 9 <= u < 18 && #[trigger] unit_has_duplicate(board.fields@, u);
                lemma_duplicate_refutes(*board, p1, u);
            }
            return None;
        },
    };
    proof {
        lemma_exclusion_keeps(*board, p1, p2, 1);
    }
    let p3 = match check_squares(board, &p2) {
        Some(p) => p,
        None => {
            proof {
                let u = choose|u: int| 18 <= u < 27 && #[trigger] unit_has_duplicate(board.fields@, u);
                lemma_duplicate_refutes(*board, p2, u);
            }
            return None;
        },
    };
    proof {
        lemma_exclusion_keeps(*board, p2, p3, 2);
        assert forall|k: int| 0 <= k < 81 implies #[trigger] excluded_in_all_units(
            poss.fields@[k],
            p3.fields@[k],
            board.fields@,
            k,
        ) by {
            lemma_three_exclusions(
                board.fields@,
                poss.fields@[k],
                p1.fields@[k],
                p2.fields@[k],
                p3.fields@[k],
                k,
            );
        }
        assert forall|k: int| 0 <= k < 81 implies (#[trigger] p3.fields@[k]).wf()
            && p3.fields@[k].exclusions_only() by {
            assert(excluded_in_all_units(poss.fields@[k], p3.fields@[k], board.fields@, k));
            assert(poss.fields@[k].exclusions_only());
        }
        assert forall|k: int, e: int|
            0 <= k < 81 && 0 <= e < 9 && (#[trigger] p3.fields@[k].fields@[e]) is None implies poss.fields@[k].fields@[e] is None
                && !sees_digit(board.fields@, k, (e + 1) as u32) by {
            assert(excluded_in_all_units(poss.fields@[k], p3.fields@[k], board.fields@, k));
        }
        assert forall|u: int| 0 <= u < 27 implies !#[trigger] unit_has_duplicate(board.fields@, u) by {}
    }
    Some(p3)
}

/// Solves the board by repeated exclusion and filling, guessing a digit for the
/// cell `calc_guess` picks when no cell is forced and backtracking when the guess
/// fails (the guessed digit is then excluded for that cell).
///
/// A returned board is full, keeps every filled cell of `input_board`, and holds
/// digits from 1 to 9; when the givens hold no digit twice in a row, column or box,
/// it is a solution. A full board is returned as it is. `None` is returned only
/// when no solution completes the board while avoiding the digits `input_poss`
/// excludes for its empty cells. Which board comes back is fixed by `search`: the
/// result is the answer that search gives from `input_board` and `input_poss`.
pub fn try_solve(input_board: &Board, input_poss: &BoardPoss) -> (r: Option<Board>)
    requires
        input_board.wf(),
        (exists|k: int| 0 <= k < 81 && #[trigger] input_board.fields@[k] is None)
            ==> input_poss.exclusions_only(),
    ensures
        r matches Some(b) ==> {
            &&& b.wf()
            &&& forall|k: int| 0 <= k < 81 ==> #[trigger] b.fields@[k] is Some
            &&& forall|k: int|
                0 <= k < 81 && (#[trigger] input_board.fields@[k]) is Some ==> b.fields@[k]
                    == input_board.fields@[k]
        },
        no_duplicates(input_board.fields@) && r is Some ==> no_duplicates(r->0.fields@)
            && is_solution(board_digits(r->0.fields@)),
        r is None ==> unsolvable(*input_board, *input_poss),
        (forall|k: int| 0 <= k < 81 ==> #[trigger] input_board.fields@[k] is Some) ==> r == Some(
            *input_board,
        ),
        search_gives(
            input_board.fields@,
            entries_of(input_poss.fields@),
            if r is Some {
                Some(r->0.fields@)
            } else {
                None
            },
        ),
    decreases empty_count(input_board.fields@),
{
    let mut board = *input_board;
    let mut poss = *input_poss;
    let mut exchanged;
    let ghost c_in = input_board.fields@;
    let ghost t_in = entries_of(input_poss.fields@);
    proof {
        lemma_leads_to_refl(c_in, t_in);
    }
    while has_none(&board)
        invariant
            c_in == input_board.fields@,
            t_in == entries_of(input_poss.fields@),
            leads_to(c_in, t_in, board.fields@, entries_of(poss.fields@)),
            board.wf(),
            (exists|k: int| 0 <= k < 81 && #[trigger] input_board.fields@[k] is None)
                ==> poss.exclusions_only(),
            forall|k: int|
                0 <= k < 81 && (#[trigger] input_board.fields@[k]) is Some ==> board.fields@[k]
                    == input_board.fields@[k],
            empty_count(board.fields@) <= empty_count(input_board.fields@),
            keeps_solutions(*input_board, *input_poss, board, poss),
            no_duplicates(input_board.fields@) ==> no_duplicates(board.fields@),
        decreases empty_count(board.fields@), open_total(poss.fields@),
    {
        proof {
            let k = choose|k: int| 0 <= k < 81 && #[trigger] board.fields@[k] is None;
            assert(input_board.fields@[k] is None);
        }
        let ghost board0 = board;
        let ghost poss0 = poss;
        let ghost c0 = board.fields@;
        let ghost t0 = entries_of(poss.fields@);
        proof {
            assert(!is_full(c0));
        }
        poss = match check_all(&board, &poss) {
            Some(p) => p,
            None => {
                proof {
                    lemma_round_refuses(c0, t0);
                    lemma_answer_now(c_in, t_in, c0, t0, None);
                }
                return None;
            },
        };
        let ghost poss1 = poss;
        let ghost t1 = entries_of(poss.fields@);
        proof {
            lemma_table_excluded(board0, poss0, poss1);
            lemma_fill_entries(c0, poss1.fields@);
        }
        exchanged = match replace_known(&mut board, &poss) {
            Some(x) => x,
            None => {
                proof {
                    lemma_first_stuck(board0.fields@, poss1.fields@, 0);
                    let kb = first_stuck_from(board0.fields@, poss1.fields@, 0);
                    lemma_stuck_refutes(board0, poss1, kb);
                    lemma_round_refuses(c0, t0);
                    lemma_answer_now(c_in, t_in, c0, t0, None);
                }
                return None;
            },
        };
        proof {
            assert(board.fields@ =~= filled_before(c0, poss1.fields@, 81));
            assert(board.fields@ == filled_upto(c0, t1, 81));
            if exchanged {
                let k = choose|k: int|
                    0 <= k < 81 && #[trigger] board0.fields@[k] is None && forced_digit(
                        poss1.fields@[k],
                    ) is Some;
                assert(forced_of(t1[k]) is Some);
                lemma_round_fills(c0, t0);
                lemma_leads_to_trans(c_in, t_in, c0, t0, board.fields@, t1);
            } else {
                assert forall|k: int| 0 <= k < 81 && #[trigger] c0[k] is None implies !(forced_of(
                    excluded_table(c0, t0)[k],
                ) is Some) by {
                    assert(forced_digit(poss1.fields@[k]) == forced_of(t1[k]));
                }
                assert(round_guesses(c0, t0));
            }
        }
        proof {
            lemma_first_stuck(board0.fields@, poss1.fields@, 0);
            lemma_fill_keeps(board0, board, poss1);
            assert forall|j: int| 0 <= j < 81 && #[trigger] board.fields@[j] is None implies board0.fields@[j] is None by {
                assert(board.fields@[j] == after_fill(board0.fields@[j], poss1.fields@[j]));
            }
            lemma_empty_count(board0.fields@, board.fields@, 0);
            lemma_open_total(poss0.fields@, poss1.fields@, 0, 0);
            if exchanged {
                let k = choose|k: int|
                    0 <= k < 81 && #[trigger] board0.fields@[k] is None && forced_digit(
                        poss1.fields@[k],
                    ) is Some;
                lemma_empty_count(board0.fields@, board.fields@, k);
            } else {
                assert(board.fields@ =~= board0.fields@) by {
                    assert forall|k: int| 0 <= k < 81 implies #[trigger] board.fields@[k]
                        == board0.fields@[k] by {
                        assert(board.fields@[k] == after_fill(board0.fields@[k], poss1.fields@[k]));
                    }
                }
            }
        }
        if !exchanged {
            // no cell is forced: guess the first open digit of the chosen cell
            let guess_index = calc_guess(&board, &poss);
            proof {
                lemma_guess_matches(c0, poss1, guess_index as int);
                let k = choose|k: int| 0 <= k < 81 && #[trigger] board0.fields@[k] is None;
                assert(board.fields@[k] is None);
                assert(poss1.fields@[k].wf());
                assert(guess_candidate(board.fields@, poss1.fields@, k));
                assert(!stuck_at(board0.fields@, poss1.fields@, guess_index as int));
                assert(!blocked(poss1.fields@[guess_index as int]));
                lemma_field_counts(poss1.fields@[guess_index as int]);
                lemma_first_open(poss1.fields@[guess_index as int].fields@, 0);
            }
            let mut guess: u32 = 0;
            let open = first_open(&poss.fields[guess_index]);
            if open < 10 {
                guess = open as u32;
            }
            let mut new_board = board;
            new_board.fields[guess_index] = Some(guess);
            proof {
                lemma_empty_count(board.fields@, new_board.fields@, guess_index as int);
                assert forall|k: int|
                    0 <= k < 81 && (#[trigger] input_board.fields@[k]) is Some implies new_board.fields@[k]
                        == input_board.fields@[k] by {
                    assert(board.fields@[k] == input_board.fields@[k]);
                }
                assert(poss1.fields@[guess_index as int].fields@[guess - 1] is None);
                assert(new_board.fields@ =~= board.fields@.update(guess_index as int, Some(guess)));
                lemma_guess_no_duplicates(
                    board.fields@,
                    guess_index as int,
                    guess,
                    new_board.fields@,
                );
                assert(new_board.fields@ == guessed_board(c0, t1));
            }
            match try_solve(&new_board, &poss) {
                Some(b) => {
                    proof {
                        lemma_round_guess_found(c0, t0, b.fields@);
                        lemma_answer_found(c_in, t_in, c0, t0, Some(b.fields@));
                    }
                    return Some(b);
                },
                None => {
                    let ghost before = poss;
                    let mut field = poss.fields[guess_index];
                    field.set(guess as usize, false);
                    poss.fields[guess_index] = field;
                    proof {
                        lemma_guess_excluded(board, before, new_board, poss, guess_index as int, guess);
                        lemma_open_total(poss0.fields@, poss.fields@, guess_index as int, guess - 1);
                        assert(entries_of(poss.fields@) =~= guess_excluded(c0, t1));
                        lemma_round_guess_refused(c0, t0);
                        lemma_leads_to_trans(c_in, t_in, c0, t0, c0, entries_of(poss.fields@));
                    }
                },
            }
        }
    }
    proof {
        if forall|k: int| 0 <= k < 81 ==> #[trigger] input_board.fields@[k] is Some {
            assert(board.fields =~= input_board.fields);
        }
        if no_duplicates(input_board.fields@) {
            lemma_solved_board(board.fields@);
        }
        lemma_round_full(board.fields@, entries_of(poss.fields@));
        lemma_answer_now(c_in, t_in, board.fields@, entries_of(poss.fields@), Some(board.fields@));
    }
    Some(board)
}

/// An answer the search gives in one round from a state the input leads to is an
/// answer of the input.
proof fn lemma_answer_now(
    c_in: Seq<Option<u32>>,
    t_in: Seq<Seq<Option<bool>>>,
    c: Seq<Option<u32>>,
    t: Seq<Seq<Option<bool>>>,
    x: Option<Seq<Option<u32>>>,
)
    requires
        leads_to(c_in, t_in, c, t),
        search(c, t, 1) == Some(x),
    ensures
        search_gives(c_in, t_in, x),
{
    assert(search(c, t, 1) is Some);
}

/// An answer of a state the input leads to is an answer of the input.
proof fn lemma_answer_found(
    c_in: Seq<Option<u32>>,
    t_in: Seq<Seq<Option<bool>>>,
    c: Seq<Option<u32>>,
    t: Seq<Seq<Option<bool>>>,
    x: Option<Seq<Option<u32>>>,
)
    requires
        leads_to(c_in, t_in, c, t),
        search_gives(c, t, x),
    ensures
        search_gives(c_in, t_in, x),
{
    lemma_leads_to_answer(c_in, t_in, c, t, x);
}

/// The table `check_all` returns is the excluded table of the search.
proof fn lemma_table_excluded(board: Board, before: BoardPoss, after: BoardPoss)
    requires
        forall|k: int|
            0 <= k < 81 ==> #[trigger] excluded_in_all_units(
                before.fields@[k],
                after.fields@[k],
                board.fields@,
                k,
            ),
    ensures
        entries_of(after.fields@) == excluded_table(board.fields@, entries_of(before.fields@)),
{
    let t0 = entries_of(before.fields@);
    let a = entries_of(after.fields@);
    let b = excluded_table(board.fields@, t0);
    assert forall|k: int| 0 <= k < 81 implies #[trigger] a[k] =~= b[k] by {
        assert(excluded_in_all_units(before.fields@[k], after.fields@[k], board.fields@, k));
        assert(t0[k] == before.fields@[k].fields@);
    }
    assert(a =~= b);
}

/// The cell `calc_guess` picks on a table whose amounts count the decided entries is
/// the search's cell to guess.
proof fn lemma_guess_matches(cells: Seq<Option<u32>>, poss: BoardPoss, g: int)
    requires
        poss.wf(),
        (exists|k: int| 0 <= k < 81 && #[trigger] guess_candidate(cells, poss.fields@, k)) ==> {
            &&& g < 81
            &&& guess_candidate(cells, poss.fields@, g)
            &&& forall|k: int|
                0 <= k < 81 && #[trigger] guess_candidate(cells, poss.fields@, k) ==> !ranks_above(
                    cells,
                    poss.fields@,
                    k,
                    g,
                )
            &&& forall|k: int|
                0 <= k < g && #[trigger] guess_candidate(cells, poss.fields@, k) ==> ranks_above(
                    cells,
                    poss.fields@,
                    g,
                    k,
                )
        },
        exists|k: int| 0 <= k < 81 && #[trigger] cells[k] is None,
        0 <= g,
    ensures
        g == guess_cell(cells, entries_of(poss.fields@)),
{
    let t = entries_of(poss.fields@);
    let k0 = choose|k: int| 0 <= k < 81 && #[trigger] cells[k] is None;
    assert(poss.fields@[k0].wf());
    assert(guess_candidate(cells, poss.fields@, k0));
    assert forall|k: int, m: int| 0 <= k < 81 && 0 <= m < 81 implies ranks_above(cells, poss.fields@, k, m)
        == #[trigger] ranks_over(cells, t, k, m) by {
        assert(poss.fields@[k].wf());
        assert(poss.fields@[m].wf());
        assert(t[k] == poss.fields@[k].fields@);
        assert(t[m] == poss.fields@[m].fields@);
    }
    assert forall|k: int| 0 <= k < 81 implies guess_candidate(cells, poss.fields@, k) == (
    #[trigger] cells[k] is None) by {
        assert(poss.fields@[k].wf());
    }
    assert(is_guess_cell(cells, t, g));
    lemma_guess_cell_unique(cells, t, g);
}

/// When no solution completes the board with `d` guessed at the empty cell `g`,
/// excluding `d` there loses no solution.
pub proof fn lemma_guess_excluded(
    board: Board,
    poss: BoardPoss,
    guessed: Board,
    narrowed: BoardPoss,
    g: int,
    d: u32,
)
    requires
        0 <= g < 81,
        1 <= d <= 9,
        board.fields@[g] is None,
        guessed.fields@ == board.fields@.update(g, Some(d)),
        narrowed.fields@ == poss.fields@.update(g, narrowed.fields@[g]),
        narrowed.fields@[g].fields@ == poss.fields@[g].fields@.update(d - 1, Some(false)),
        unsolvable(guessed, poss),
    ensures
        keeps_solutions(board, poss, board, narrowed),
{
    assert forall|s: Seq<u32>| #[trigger] completes(s, board, poss) implies completes(
        s,
        board,
        narrowed,
    ) by {
        if s[g] == d {
            assert(completes(s, guessed, poss));
        }
    }
}

/// Some solved grid keeps every filled cell of `cells`.
pub open spec fn has_solution(cells: Seq<Option<u32>>) -> bool {
    exists|s: Seq<u32>| is_solution(s) && #[trigger] extends(s, cells)
}

/// With a table that excludes nothing, "no solution completes the board" means
/// "the board has no solution".
pub proof fn lemma_fresh_table(board: Board, poss: BoardPoss)
    requires
        forall|k: int, e: int|
            0 <= k < 81 && 0 <= e < 9 ==> #[trigger] poss.fields@[k].fields@[e] == None::<bool>,
    ensures
        unsolvable(board, poss) <==> !has_solution(board.fields@),
{
    if has_solution(board.fields@) {
        let s = choose|s: Seq<u32>| is_solution(s) && #[trigger] extends(s, board.fields@);
        assert(completes(s, board, poss));
    }
}

} // verus!
