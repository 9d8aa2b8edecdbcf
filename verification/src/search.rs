//! The search that `try_solve` performs, as a function of the board and the table
//! of excluded digits: which board it returns, not only what that board satisfies.
use vstd::prelude::*;
use crate::board::{PossField, decided_at, excluded_at};
use crate::count::count_upto;
use crate::solver::{sees_digit, no_duplicates, first_open_from, dependence, filled_before,
    stuck_at, first_stuck_from, after_fill, forced_digit, blocked};

verus! {

/// The entries of each field of a table, cell by cell.
pub open spec fn entries_of(poss: Seq<PossField>) -> Seq<Seq<Option<bool>>> {
    Seq::new(81, |k: int| poss[k].fields@)
}

/// A table in which every digit of every cell is open.
pub open spec fn open_table() -> Seq<Seq<Option<bool>>> {
    Seq::new(81, |k: int| Seq::new(9, |e: int| None::<bool>))
}

/// Every cell is filled.
pub open spec fn is_full(cells: Seq<Option<u32>>) -> bool {
    forall|k: int| 0 <= k < 81 ==> #[trigger] cells[k] is Some
}

/// The table after excluding, in every cell, the digits of its row, column and box.
pub open spec fn excluded_table(cells: Seq<Option<u32>>, t: Seq<Seq<Option<bool>>>) -> Seq<
    Seq<Option<bool>>,
> {
    Seq::new(
        81,
        |k: int|
            Seq::new(
                9,
                |e: int|
                    if sees_digit(cells, k, (e + 1) as u32) {
                        Some(false)
                    } else {
                        t[k][e]
                    },
            ),
    )
}

/// The digit entries `es` force (see `forced_digit`).
pub open spec fn forced_of(es: Seq<Option<bool>>) -> Option<u32> {
    if count_upto(excluded_at(es), 9) == 8 && first_open_from(es, 0) < 9 {
        Some((first_open_from(es, 0) + 1) as u32)
    } else {
        None
    }
}

/// All nine digits are excluded (see `blocked`).
pub open spec fn blocked_of(es: Seq<Option<bool>>) -> bool {
    count_upto(excluded_at(es), 9) == 9
}

/// A cell after the filling pass (see `after_fill`).
pub open spec fn fill_of(cell: Option<u32>, es: Seq<Option<bool>>) -> Option<u32> {
    if cell is None && forced_of(es) is Some {
        forced_of(es)
    } else {
        cell
    }
}

/// The cells once the pass has handled the cells before `i` (see `filled_before`).
pub open spec fn filled_upto(cells: Seq<Option<u32>>, t: Seq<Seq<Option<bool>>>, i: int) -> Seq<
    Option<u32>,
> {
    Seq::new(81, |k: int| if k < i { fill_of(cells[k], t[k]) } else { cells[k] })
}

/// The pass stops at cell `k` (see `stuck_at`).
pub open spec fn stops_at(cells: Seq<Option<u32>>, t: Seq<Seq<Option<bool>>>, k: int) -> bool {
    &&& cells[k] is None
    &&& (blocked_of(t[k]) || (forced_of(t[k]) matches Some(d) && sees_digit(
        filled_upto(cells, t, k),
        k,
        d,
    )))
}

/// First cell at or after `k` where the pass stops, or 81 (see `first_stuck_from`).
pub open spec fn first_stop_from(cells: Seq<Option<u32>>, t: Seq<Seq<Option<bool>>>, k: int) -> int
    decreases 81 - k,
{
    if k < 0 || k >= 81 {
        81
    } else if stops_at(cells, t, k) {
        k
    } else {
        first_stop_from(cells, t, k + 1)
    }
}

/// Cell `k` ranks above cell `m` for guessing: more decided entries, or as many and
/// a larger weight.
pub open spec fn ranks_over(cells: Seq<Option<u32>>, t: Seq<Seq<Option<bool>>>, k: int, m: int) -> bool {
    ||| count_upto(decided_at(t[k]), 9) > count_upto(decided_at(t[m]), 9)
    ||| (count_upto(decided_at(t[k]), 9) == count_upto(decided_at(t[m]), 9) && dependence(cells, k)
        > dependence(cells, m))
}

/// `g` is the cell to guess: empty, no empty cell ranks above it, and it ranks
/// above every empty cell before it.
pub open spec fn is_guess_cell(cells: Seq<Option<u32>>, t: Seq<Seq<Option<bool>>>, g: int) -> bool {
    &&& 0 <= g < 81
    &&& cells[g] is None
    &&& forall|k: int| 0 <= k < 81 && #[trigger] cells[k] is None ==> !ranks_over(cells, t, k, g)
    &&& forall|k: int| 0 <= k < g && #[trigger] cells[k] is None ==> ranks_over(cells, t, g, k)
}

/// The cell to guess.
pub open spec fn guess_cell(cells: Seq<Option<u32>>, t: Seq<Seq<Option<bool>>>) -> int {
    choose|g: int| is_guess_cell(cells, t, g)
}

/// At most one cell is the cell to guess.
pub proof fn lemma_guess_cell_unique(cells: Seq<Option<u32>>, t: Seq<Seq<Option<bool>>>, g: int)
    requires
        is_guess_cell(cells, t, g),
    ensures
        guess_cell(cells, t) == g,
{
    let h = guess_cell(cells, t);
    assert(is_guess_cell(cells, t, h));
    if h < g {
        assert(ranks_over(cells, t, g, h));
        assert(!ranks_over(cells, t, g, h));
    } else if g < h {
        assert(ranks_over(cells, t, h, g));
        assert(!ranks_over(cells, t, h, g));
    }
}

/// The search, given `fuel` rounds: `None` when the fuel runs out, `Some(None)` when
/// it refuses the board, `Some(Some(b))` when it returns `b`. A round: a full board
/// is returned; a board with a digit twice in a unit is refused; otherwise the
/// digits of each cell's units are excluded and the forced cells filled; if the
/// pass stops, the board is refused; if it filled a cell, the search goes on from
/// there; if not, the first open digit of the cell to guess is tried, and when
/// that search refuses, the digit is excluded for that cell and the search goes on.
pub open spec fn search(cells: Seq<Option<u32>>, t: Seq<Seq<Option<bool>>>, fuel: nat) -> Option<
    Option<Seq<Option<u32>>>,
>
    decreases fuel,
{
    if fuel == 0 {
        None
    } else if is_full(cells) {
        Some(Some(cells))
    } else if !no_duplicates(cells) {
        Some(None)
    } else {
        let t1 = excluded_table(cells, t);
        if first_stop_from(cells, t1, 0) < 81 {
            Some(None)
        } else if exists|k: int| 0 <= k < 81 && #[trigger] cells[k] is None && forced_of(t1[k]) is Some {
            search(filled_upto(cells, t1, 81), t1, (fuel - 1) as nat)
        } else {
            let g = guess_cell(cells, t1);
            let d = (first_open_from(t1[g], 0) + 1) as u32;
            match search(cells.update(g, Some(d)), t1, (fuel - 1) as nat) {
                None => None,
                Some(Some(b)) => Some(Some(b)),
                Some(None) => search(
                    cells,
                    t1.update(g, t1[g].update(d - 1, Some(false))),
                    (fuel - 1) as nat,
                ),
            }
        }
    }
}

/// Once the search has an answer, more fuel gives the same answer.
pub proof fn lemma_search_more_fuel(cells: Seq<Option<u32>>, t: Seq<Seq<Option<bool>>>, n: nat)
    requires
        search(cells, t, n) is Some,
    ensures
        search(cells, t, n + 1) == search(cells, t, n),
    decreases n,
{
    if n > 0 && !is_full(cells) && no_duplicates(cells) {
        let t1 = excluded_table(cells, t);
        if first_stop_from(cells, t1, 0) < 81 {
        } else if exists|k: int| 0 <= k < 81 && #[trigger] cells[k] is None && forced_of(t1[k]) is Some {
            lemma_search_more_fuel(filled_upto(cells, t1, 81), t1, (n - 1) as nat);
        } else {
            let g = guess_cell(cells, t1);
            let d = (first_open_from(t1[g], 0) + 1) as u32;
            lemma_search_more_fuel(cells.update(g, Some(d)), t1, (n - 1) as nat);
            if search(cells.update(g, Some(d)), t1, (n - 1) as nat) == Some(None::<Seq<Option<u32>>>) {
                lemma_search_more_fuel(
                    cells,
                    t1.update(g, t1[g].update(d - 1, Some(false))),
                    (n - 1) as nat,
                );
            }
        }
    }
}

/// Once the search has an answer, any larger fuel gives the same answer.
pub proof fn lemma_search_fuel_mono(cells: Seq<Option<u32>>, t: Seq<Seq<Option<bool>>>, n: nat, m: nat)
    requires
        search(cells, t, n) is Some,
        n <= m,
    ensures
        search(cells, t, m) == search(cells, t, n),
    decreases m - n,
{
    if n < m {
        lemma_search_more_fuel(cells, t, n);
        lemma_search_fuel_mono(cells, t, n + 1, m);
    }
}

/// The search has at most one answer: two fuels that both give an answer give the
/// same one.
pub proof fn lemma_search_deterministic(
    cells: Seq<Option<u32>>,
    t: Seq<Seq<Option<bool>>>,
    n: nat,
    m: nat,
)
    requires
        search(cells, t, n) is Some,
        search(cells, t, m) is Some,
    ensures
        search(cells, t, n) == search(cells, t, m),
{
    if n <= m {
        lemma_search_fuel_mono(cells, t, n, m);
    } else {
        lemma_search_fuel_mono(cells, t, m, n);
    }
}

/// Every answer the search gives from `(c1, t1)` it gives from `(c0, t0)` too.
pub open spec fn leads_to(
    c0: Seq<Option<u32>>,
    t0: Seq<Seq<Option<bool>>>,
    c1: Seq<Option<u32>>,
    t1: Seq<Seq<Option<bool>>>,
) -> bool {
    forall|n: nat| #[trigger] search(c1, t1, n) is Some ==> search_gives(c0, t0, search(c1, t1, n)->0)
}

/// `search(c, t, n) == Some(x)` for some fuel `n`.
pub open spec fn search_gives(c: Seq<Option<u32>>, t: Seq<Seq<Option<bool>>>, x: Option<Seq<Option<u32>>>) -> bool {
    exists|n: nat| #[trigger] search(c, t, n) == Some(x)
}

/// Following `leads_to` twice.
pub proof fn lemma_leads_to_trans(
    c0: Seq<Option<u32>>,
    t0: Seq<Seq<Option<bool>>>,
    c1: Seq<Option<u32>>,
    t1: Seq<Seq<Option<bool>>>,
    c2: Seq<Option<u32>>,
    t2: Seq<Seq<Option<bool>>>,
)
    requires
        leads_to(c0, t0, c1, t1),
        leads_to(c1, t1, c2, t2),
    ensures
        leads_to(c0, t0, c2, t2),
{
    assert forall|n: nat| #[trigger] search(c2, t2, n) is Some implies search_gives(
        c0,
        t0,
        search(c2, t2, n)->0,
    ) by {
        let x = search(c2, t2, n)->0;
        let m1 = choose|m: nat| #[trigger] search(c1, t1, m) == Some(x);
        assert(search(c1, t1, m1) is Some);
    }
}

/// Every search leads to itself.
pub proof fn lemma_leads_to_refl(c: Seq<Option<u32>>, t: Seq<Seq<Option<bool>>>)
    ensures
        leads_to(c, t, c, t),
{
    assert forall|n: nat| #[trigger] search(c, t, n) is Some implies search_gives(
        c,
        t,
        search(c, t, n)->0,
    ) by {
        assert(search(c, t, n) == Some(search(c, t, n)->0));
    }
}

/// The filling pass agrees with its form over the entries of the table.
pub proof fn lemma_fill_entries(cells: Seq<Option<u32>>, poss: Seq<PossField>)
    requires
        poss.len() == 81,
    ensures
        forall|i: int| #[trigger] filled_before(cells, poss, i) == filled_upto(cells, entries_of(poss), i),
        forall|k: int| 0 <= k < 81 ==> #[trigger] stuck_at(cells, poss, k) == stops_at(cells, entries_of(poss), k),
        first_stuck_from(cells, poss, 0) == first_stop_from(cells, entries_of(poss), 0),
        forall|k: int| 0 <= k < 81 ==> #[trigger] forced_digit(poss[k]) == forced_of(entries_of(poss)[k]),
{
    let t = entries_of(poss);
    assert forall|i: int| #[trigger] filled_before(cells, poss, i) == filled_upto(cells, t, i) by {
        assert(filled_before(cells, poss, i) =~= filled_upto(cells, t, i));
    }
    assert forall|k: int| 0 <= k < 81 implies #[trigger] stuck_at(cells, poss, k) == stops_at(cells, t, k) by {
        assert(t[k] == poss[k].fields@);
        assert(filled_before(cells, poss, k) == filled_upto(cells, t, k));
    }
    lemma_first_stop(cells, poss, 0);
}

/// `first_stuck_from` and `first_stop_from` agree.
proof fn lemma_first_stop(cells: Seq<Option<u32>>, poss: Seq<PossField>, k: int)
    requires
        poss.len() == 81,
        0 <= k <= 81,
        forall|j: int| 0 <= j < 81 ==> #[trigger] stuck_at(cells, poss, j) == stops_at(cells, entries_of(poss), j),
    ensures
        first_stuck_from(cells, poss, k) == first_stop_from(cells, entries_of(poss), k),
    decreases 81 - k,
{
    if k < 81 {
        assert(stuck_at(cells, poss, k) == stops_at(cells, entries_of(poss), k));
        lemma_first_stop(cells, poss, k + 1);
    }
}

/// A full board is its own answer.
pub proof fn lemma_round_full(c: Seq<Option<u32>>, t: Seq<Seq<Option<bool>>>)
    requires
        is_full(c),
    ensures
        search(c, t, 1) == Some(Some(c)),
{
}

/// A round that finds a duplicate or stops the filling pass refuses the board.
pub proof fn lemma_round_refuses(c: Seq<Option<u32>>, t: Seq<Seq<Option<bool>>>)
    requires
        !is_full(c),
        !no_duplicates(c) || first_stop_from(c, excluded_table(c, t), 0) < 81,
    ensures
        search(c, t, 1) == Some(None::<Seq<Option<u32>>>),
{
}

/// A round that fills a cell goes on from the filled board and the narrowed table.
pub proof fn lemma_round_fills(c: Seq<Option<u32>>, t: Seq<Seq<Option<bool>>>)
    requires
        !is_full(c),
        no_duplicates(c),
        first_stop_from(c, excluded_table(c, t), 0) >= 81,
        exists|k: int| 0 <= k < 81 && #[trigger] c[k] is None && forced_of(excluded_table(c, t)[k]) is Some,
    ensures
        leads_to(c, t, filled_upto(c, excluded_table(c, t), 81), excluded_table(c, t)),
{
    let t1 = excluded_table(c, t);
    let c1 = filled_upto(c, t1, 81);
    assert forall|n: nat| #[trigger] search(c1, t1, n) is Some implies search_gives(
        c,
        t,
        search(c1, t1, n)->0,
    ) by {
        assert(search(c, t, n + 1) == search(c1, t1, n));
    }
}

/// The board the round guesses on, and the table after the guessed digit is excluded.
pub open spec fn guessed_board(c: Seq<Option<u32>>, t1: Seq<Seq<Option<bool>>>) -> Seq<Option<u32>> {
    c.update(guess_cell(c, t1), Some((first_open_from(t1[guess_cell(c, t1)], 0) + 1) as u32))
}

/// The table once the guessed digit is excluded for the guessed cell.
pub open spec fn guess_excluded(c: Seq<Option<u32>>, t1: Seq<Seq<Option<bool>>>) -> Seq<Seq<Option<bool>>> {
    let g = guess_cell(c, t1);
    let d = (first_open_from(t1[g], 0) + 1) as u32;
    t1.update(g, t1[g].update(d - 1, Some(false)))
}

/// The conditions of a round that guesses.
pub open spec fn round_guesses(c: Seq<Option<u32>>, t: Seq<Seq<Option<bool>>>) -> bool {
    &&& !is_full(c)
    &&& no_duplicates(c)
    &&& first_stop_from(c, excluded_table(c, t), 0) >= 81
    &&& !exists|k: int| 0 <= k < 81 && #[trigger] c[k] is None && forced_of(excluded_table(c, t)[k]) is Some
}

/// A guess that leads to a board gives that board.
pub proof fn lemma_round_guess_found(c: Seq<Option<u32>>, t: Seq<Seq<Option<bool>>>, b: Seq<Option<u32>>)
    requires
        round_guesses(c, t),
        search_gives(guessed_board(c, excluded_table(c, t)), excluded_table(c, t), Some(b)),
    ensures
        search_gives(c, t, Some(b)),
{
    let t1 = excluded_table(c, t);
    let n = choose|n: nat| #[trigger] search(guessed_board(c, t1), t1, n) == Some(Some(b));
    assert(search(c, t, n + 1) == Some(Some(b)));
}

/// A refused guess goes on with the guessed digit excluded.
pub proof fn lemma_round_guess_refused(c: Seq<Option<u32>>, t: Seq<Seq<Option<bool>>>)
    requires
        round_guesses(c, t),
        search_gives(guessed_board(c, excluded_table(c, t)), excluded_table(c, t), None),
    ensures
        leads_to(c, t, c, guess_excluded(c, excluded_table(c, t))),
{
    let t1 = excluded_table(c, t);
    let t2 = guess_excluded(c, t1);
    let gb = guessed_board(c, t1);
    let n1 = choose|n: nat| #[trigger] search(gb, t1, n) == Some(None::<Seq<Option<u32>>>);
    assert forall|n: nat| #[trigger] search(c, t2, n) is Some implies search_gives(
        c,
        t,
        search(c, t2, n)->0,
    ) by {
        let m: nat = if n < n1 { n1 } else { n };
        lemma_search_fuel_mono(gb, t1, n1, m);
        lemma_search_fuel_mono(c, t2, n, m);
        assert(search(c, t, m + 1) == search(c, t2, m));
    }
}

/// An answer of a search that `(c0, t0)` leads to is an answer of `(c0, t0)`.
pub proof fn lemma_leads_to_answer(
    c0: Seq<Option<u32>>,
    t0: Seq<Seq<Option<bool>>>,
    c1: Seq<Option<u32>>,
    t1: Seq<Seq<Option<bool>>>,
    x: Option<Seq<Option<u32>>>,
)
    requires
        leads_to(c0, t0, c1, t1),
        search_gives(c1, t1, x),
    ensures
        search_gives(c0, t0, x),
{
    let n = choose|n: nat| #[trigger] search(c1, t1, n) == Some(x);
    assert(search(c1, t1, n) is Some);
}

} // verus!
