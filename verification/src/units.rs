//! The 27 units of the grid: rows are units 0..9, columns 9..18 and boxes 18..27.
//! Unit `u` of kind `u / 9` holds the cells `unit_cell(u, 0) .. unit_cell(u, 8)`.
use vstd::prelude::*;

verus! {

/// Grid index (row-major) of the `a`-th cell of unit `u`. Cells of a box are
/// numbered row by row inside the box; boxes are numbered row by row in the grid.
pub open spec fn unit_cell(u: int, a: int) -> int {
    if u < 9 {
        u * 9 + a
    } else if u < 18 {
        (u - 9) + a * 9
    } else {
        (3 * ((u - 18) / 3) + a / 3) * 9 + 3 * ((u - 18) % 3) + a % 3
    }
}

/// The unit of kind `kind` (0 row, 1 column, 2 box) that holds cell `k`.
pub open spec fn unit_of(kind: int, k: int) -> int {
    if kind == 0 {
        k / 9
    } else if kind == 1 {
        9 + k % 9
    } else {
        18 + (k / 27) * 3 + (k % 9) / 3
    }
}

/// The position of cell `k` inside its unit of kind `kind`.
pub open spec fn pos_in_unit(kind: int, k: int) -> int {
    if kind == 0 {
        k % 9
    } else if kind == 1 {
        k / 9
    } else {
        ((k / 9) % 3) * 3 + (k % 9) % 3
    }
}

/// Every cell of a unit lies on the grid, and the unit of its kind that holds it is that unit.
pub proof fn lemma_unit_cell(u: int, a: int)
    requires
        0 <= u < 27,
        0 <= a < 9,
    ensures
        0 <= unit_cell(u, a) < 81,
        unit_of(u / 9, unit_cell(u, a)) == u,
        pos_in_unit(u / 9, unit_cell(u, a)) == a,
{
    let k = unit_cell(u, a);
    if u < 9 {
        assert(u / 9 == 0);
        assert(k / 9 == u && k % 9 == a) by (nonlinear_arith)
            requires
                k == u * 9 + a,
                0 <= a < 9,
                0 <= u < 9,
        ;
    } else if u < 18 {
        assert(u / 9 == 1);
        assert(k / 9 == a && k % 9 == u - 9) by (nonlinear_arith)
            requires
                k == (u - 9) + a * 9,
                0 <= a < 9,
                9 <= u < 18,
        ;
    } else {
        assert(u / 9 == 2);
        let b = u - 18;
        let r = 3 * (b / 3) + a / 3;
        let c = 3 * (b % 3) + a % 3;
        assert(0 <= r < 9 && 0 <= c < 9 && r / 3 == b / 3 && r % 3 == a / 3 && c / 3 == b % 3 && c
            % 3 == a % 3) by (nonlinear_arith)
            requires
                r == 3 * (b / 3) + a / 3,
                c == 3 * (b % 3) + a % 3,
                0 <= a < 9,
                0 <= b < 9,
        ;
        assert(k / 9 == r && k % 9 == c && k / 27 == r / 3) by (nonlinear_arith)
            requires
                k == r * 9 + c,
                0 <= r < 9,
                0 <= c < 9,
        ;
        assert(b == (b / 3) * 3 + b % 3 && a == (a / 3) * 3 + a % 3) by (nonlinear_arith);
    }
}

/// Every cell lies in exactly one unit of each kind, at the position `pos_in_unit` gives.
pub proof fn lemma_cell_unit(kind: int, k: int)
    requires
        0 <= kind < 3,
        0 <= k < 81,
    ensures
        9 * kind <= unit_of(kind, k) < 9 * kind + 9,
        0 <= pos_in_unit(kind, k) < 9,
        unit_cell(unit_of(kind, k), pos_in_unit(kind, k)) == k,
{
    let r = k / 9;
    let c = k % 9;
    assert(k == r * 9 + c && 0 <= r < 9 && 0 <= c < 9) by (nonlinear_arith)
        requires
            r == k / 9,
            c == k % 9,
            0 <= k < 81,
    ;
    if kind == 2 {
        assert(k / 27 == r / 3) by (nonlinear_arith)
            requires
                k == r * 9 + c,
                0 <= c < 9,
                0 <= r < 9,
        ;
        let b = (r / 3) * 3 + c / 3;
        let a = (r % 3) * 3 + c % 3;
        assert(0 <= b < 9 && 0 <= a < 9 && b / 3 == r / 3 && b % 3 == c / 3 && a / 3 == r % 3 && a
            % 3 == c % 3) by (nonlinear_arith)
            requires
                b == (r / 3) * 3 + c / 3,
                a == (r % 3) * 3 + c % 3,
                0 <= r < 9,
                0 <= c < 9,
        ;
        assert(r == (r / 3) * 3 + r % 3 && c == (c / 3) * 3 + c % 3) by (nonlinear_arith);
    }
}

/// Distinct positions of a unit are distinct cells.
pub proof fn lemma_unit_cells_distinct(u: int, a: int, c: int)
    requires
        0 <= u < 27,
        0 <= a < 9,
        0 <= c < 9,
        a != c,
    ensures
        unit_cell(u, a) != unit_cell(u, c),
{
    lemma_unit_cell(u, a);
    lemma_unit_cell(u, c);
}

/// Grid index of the `a`-th cell of unit `u`.
pub fn cell_index(u: usize, a: usize) -> (k: usize)
    requires
        u < 27,
        a < 9,
    ensures
        k == unit_cell(u as int, a as int),
        k < 81,
{
    proof {
        lemma_unit_cell(u as int, a as int);
    }
    if u < 9 {
        u * 9 + a
    } else if u < 18 {
        (u - 9) + a * 9
    } else {
        (3 * ((u - 18) / 3) + a / 3) * 9 + 3 * ((u - 18) % 3) + a % 3
    }
}

/// The unit of kind `kind` that holds cell `k`.
pub fn unit_index(kind: usize, k: usize) -> (u: usize)
    requires
        kind < 3,
        k < 81,
    ensures
        u == unit_of(kind as int, k as int),
        u < 27,
{
    proof {
        lemma_cell_unit(kind as int, k as int);
    }
    if kind == 0 {
        k / 9
    } else if kind == 1 {
        9 + k % 9
    } else {
        18 + (k / 27) * 3 + (k % 9) / 3
    }
}

} // verus!
