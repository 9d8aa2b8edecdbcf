use sudoku_solver::board::{Board, BoardPoss, PossField};

#[test]
fn main_poss_field() {
    let mut a = PossField::new();
    a.set(1, false);
    assert_eq!(a.get(1), Some(false));
}

#[test]
fn solver_poss_field() {
    let mut a = PossField::new();
    a.set(1, false);
    assert_eq!(a.get(1), Some(false));
}

#[test]
fn new_field_is_open() {
    let a = PossField::new();
    for i in 1..10 {
        assert_eq!(a.get(i), None);
    }
    assert_eq!(a.amount, 0);
    let d = PossField::default();
    assert_eq!(d.fields, a.fields);
    assert_eq!(d.amount, 0);
}

#[test]
fn set_counts_decided_entries() {
    let mut a = PossField::new();
    a.set(3, false);
    a.set(9, true);
    a.set(3, false);
    assert_eq!(a.amount, 2);
    assert_eq!(a.get(3), Some(false));
    assert_eq!(a.get(9), Some(true));
    assert_eq!(a.get(4), None);
}

#[test]
fn combine_merges_entries() {
    let mut a = PossField::new();
    a.set(1, true);
    a.set(2, true);
    a.set(3, false);
    let mut b = PossField::new();
    b.set(1, false);
    b.set(2, true);
    b.set(4, false);
    b.set(5, true);
    a.combine(b);
    assert_eq!(a.get(1), Some(false));
    assert_eq!(a.get(2), Some(true));
    assert_eq!(a.get(3), Some(false));
    assert_eq!(a.get(4), Some(false));
    assert_eq!(a.get(5), Some(true));
    assert_eq!(a.get(6), None);
    assert_eq!(a.amount, 5);
}

#[test]
fn combine_is_idempotent_on_exclusions() {
    let mut a = PossField::new();
    a.set(7, false);
    let b = a;
    a.combine(b);
    assert_eq!(a.fields, b.fields);
    assert_eq!(a.amount, 1);
}

#[test]
fn new_board_is_empty() {
    let b = Board::new();
    assert!(b.fields.iter().all(|f| f.is_none()));
    let d = Board::default();
    assert!(d.fields.iter().all(|f| f.is_none()));
}

#[test]
fn new_table_is_open() {
    let p = BoardPoss::new();
    for f in p.fields.iter() {
        assert_eq!(f.amount, 0);
        assert!(f.fields.iter().all(|e| e.is_none()));
    }
    let d = BoardPoss::default();
    assert!(d.fields.iter().all(|f| f.amount == 0));
}
