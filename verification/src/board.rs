//! The board, and the table of excluded digits that the solver keeps for each cell.
use vstd::prelude::*;
use crate::count::{count_upto, lemma_count_ext};

verus! {

broadcast use vstd::array::group_array_axioms;

/// What is known of the nine digits of one cell: entry `d - 1` is `None` while
/// digit `d` is still open, `Some(false)` once it is excluded. `amount` is the
/// number of entries that are not `None`.
#[derive(Debug, Copy, Clone)]
pub struct PossField {
    pub fields: [Option<bool>; 9],
    pub amount: i32,
}

/// A 9x9 grid, read row by row; `None` marks an empty cell.
#[derive(Copy, Clone)]
pub struct Board {
    pub fields: [Option<u32>; 81],
}

/// One `PossField` for each cell of the grid.
#[derive(Copy, Clone)]
pub struct BoardPoss {
    pub fields: [PossField; 81],
}

/// Predicate "entry `k` is not `None`".
pub open spec fn decided_at(entries: Seq<Option<bool>>) -> spec_fn(int) -> bool {
    |k: int| entries[k] is Some
}

/// Predicate "entry `k` is `Some(false)`", i.e. digit `k + 1` is excluded.
pub open spec fn excluded_at(entries: Seq<Option<bool>>) -> spec_fn(int) -> bool {
    |k: int| entries[k] == Some(false)
}

/// How two entries for the same digit merge: two known values are joined by `&&`,
/// a known value fills an unknown one, and an unknown value leaves `mine` as it is.
pub open spec fn combine_entry(mine: Option<bool>, theirs: Option<bool>) -> Option<bool> {
    match (mine, theirs) {
        (Some(a), Some(b)) => Some(a && b),
        (None, Some(b)) => Some(b),
        _ => mine,
    }
}

impl PossField {
    /// Number of decided entries among the first `n`.
    pub open spec fn decided_upto(self, n: int) -> nat {
        count_upto(decided_at(self.fields@), n)
    }

    /// Number of decided entries.
    pub open spec fn decided_count(self) -> nat {
        self.decided_upto(9)
    }

    /// Number of excluded digits.
    pub open spec fn excluded_count(self) -> nat {
        count_upto(excluded_at(self.fields@), 9)
    }

    /// `amount` counts the decided entries.
    pub open spec fn wf(self) -> bool {
        self.amount == self.decided_count()
    }

    /// No entry is `Some(true)`: each digit is either open or excluded.
    pub open spec fn exclusions_only(self) -> bool {
        forall|e: int| 0 <= e < 9 ==> self.fields@[e] != Some(true)
    }

    /// Entry for digit `idx`, where `1 <= idx <= 9`.
    pub fn get(self, idx: usize) -> (r: Option<bool>)
        requires
            1 <= idx <= 9,
        ensures
            r == self.fields@[idx - 1],
    {
        self.fields[idx - 1]
    }

    /// Records `val` for digit `idx`, where `1 <= idx <= 9`, and recounts `amount`.
    pub fn set(&mut self, idx: usize, val: bool)
        requires
            1 <= idx <= 9,
        ensures
            final(self).fields@ == old(self).fields@.update(idx - 1, Some(val)),
            final(self).wf(),
    {
        self.fields[idx - 1] = Some(val);
        self.calc_amount();
    }

    /// A field with every digit open.
    pub fn new() -> (r: PossField)
        ensures
            forall|e: int| 0 <= e < 9 ==> r.fields@[e] == None::<bool>,
            r.amount == 0,
            r.wf(),
            r.exclusions_only(),
    {
        let r = PossField { fields: [None; 9], amount: 0 };
        proof {
            lemma_count_ext(decided_at(r.fields@), |k: int| false, 9);
            assert(count_upto(|k: int| false, 9) == 0) by {
                reveal_with_fuel(count_upto, 10);
            }
        }
        r
    }

    /// Merges `other` into `self` entry by entry (see `combine_entry`) and recounts `amount`.
    pub fn combine(&mut self, other: PossField)
        ensures
            forall|e: int|
                0 <= e < 9 ==> #[trigger] final(self).fields@[e] == combine_entry(
                    old(self).fields@[e],
                    other.fields@[e],
                ),
            final(self).wf(),
    {
        let ghost before = self.fields@;
        for i in 0..9
            invariant
                forall|e: int|
                    0 <= e < i ==> #[trigger] self.fields@[e] == combine_entry(
                        before[e],
                        other.fields@[e],
                    ),
                forall|e: int| i <= e < 9 ==> #[trigger] self.fields@[e] == before[e],
        {
            match (self.fields[i], other.fields[i]) {
                (Some(a), Some(b)) => self.fields[i] = Some(a && b),
                (None, Some(_)) => self.fields[i] = other.fields[i],
                _ => (),
            }
        }
        self.calc_amount();
    }

    /// Sets `amount` to the number of decided entries.
    fn calc_amount(&mut self)
        ensures
            final(self).fields@ == old(self).fields@,
            final(self).wf(),
    {
        let ghost before = self.fields@;
        self.amount = 0;
        for i in 0..9
            invariant
                self.fields@ == before,
                self.amount == self.decided_upto(i as int),
                self.amount <= i,
        {
            match self.fields[i] {
                None => (),
                _ => self.amount += 1,
            }
        }
    }
}

impl Default for PossField {
    fn default() -> (r: Self)
        ensures
            forall|e: int| 0 <= e < 9 ==> r.fields@[e] == None::<bool>,
            r.amount == 0,
    {
        Self::new()
    }
}

impl Board {
    /// Every filled cell holds a digit from 1 to 9.
    pub open spec fn wf(self) -> bool {
        forall|k: int| 0 <= k < 81 ==> (#[trigger] self.fields@[k] matches Some(d) ==> 1 <= d <= 9)
    }

    /// An empty board.
    pub fn new() -> (b: Board)
        ensures
            forall|k: int| 0 <= k < 81 ==> b.fields@[k] == None::<u32>,
            b.wf(),
    {
        Board { fields: [None; 81] }
    }
}

impl Default for Board {
    fn default() -> (b: Self)
        ensures
            forall|k: int| 0 <= k < 81 ==> b.fields@[k] == None::<u32>,
    {
        Self::new()
    }
}

impl BoardPoss {
    /// Every field counts its decided entries.
    pub open spec fn wf(self) -> bool {
        forall|k: int| 0 <= k < 81 ==> (#[trigger] self.fields@[k]).wf()
    }

    /// No field holds `Some(true)`.
    pub open spec fn exclusions_only(self) -> bool {
        forall|k: int| 0 <= k < 81 ==> (#[trigger] self.fields@[k]).exclusions_only()
    }

    /// A table in which every digit of every cell is open.
    pub fn new() -> (p: BoardPoss)
        ensures
            forall|k: int, e: int|
                0 <= k < 81 && 0 <= e < 9 ==> #[trigger] p.fields@[k].fields@[e] == None::<bool>,
            forall|k: int| 0 <= k < 81 ==> (#[trigger] p.fields@[k]).amount == 0,
            p.wf(),
            p.exclusions_only(),
    {
        let f = PossField::new();
        BoardPoss { fields: [f; 81] }
    }
}

impl Default for BoardPoss {
    fn default() -> (p: Self)
        ensures
            forall|k: int, e: int|
                0 <= k < 81 && 0 <= e < 9 ==> #[trigger] p.fields@[k].fields@[e] == None::<bool>,
            p.wf(),
    {
        Self::new()
    }
}

/// After `set(idx, val)`, `get(idx)` gives `Some(val)`, and the entries of the other
/// digits are as they were.
pub proof fn lemma_set_then_get(before: PossField, after: PossField, idx: int, val: bool)
    requires
        1 <= idx <= 9,
        after.fields@ == before.fields@.update(idx - 1, Some(val)),
    ensures
        after.fields@[idx - 1] == Some(val),
        forall|e: int| 0 <= e < 9 && e != idx - 1 ==> #[trigger] after.fields@[e] == before.fields@[e],
{
}

/// Merging never reopens a digit: an entry decided on either side is decided after
/// the merge, an exclusion on either side is an exclusion after it, an unknown
/// entry on the other side changes nothing, and merging an entry with itself
/// leaves it as it is.
pub proof fn lemma_combine_entry(mine: Option<bool>, theirs: Option<bool>)
    ensures
        (mine is Some || theirs is Some) ==> combine_entry(mine, theirs) is Some,
        (mine == Some(false) || theirs == Some(false)) ==> combine_entry(mine, theirs) == Some(false),
        theirs is None ==> combine_entry(mine, theirs) == mine,
        combine_entry(mine, mine) == mine,
{
}

} // verus!
