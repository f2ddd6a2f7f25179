use sudoku::SudokuCell;

fn digits(c: &SudokuCell) -> Vec<u8> {
    let mut it = c.iter();
    let mut out = Vec::new();
    while let Some(d) = it.next() {
        out.push(d);
    }
    out
}

#[test]
fn new_cell_is_empty() {
    let c = SudokuCell::new();
    assert_eq!(c.size(), 0);
    for d in 1..=9u8 {
        assert!(!c.get(d));
    }
    assert_eq!(c.get_first(), None);
    assert!(digits(&c).is_empty());
}

#[test]
fn full_cell_has_all_nine() {
    let c = SudokuCell::new_all_set();
    assert_eq!(c.size(), 9);
    assert_eq!(c.get_first(), Some(1));
    assert_eq!(digits(&c), vec![1, 2, 3, 4, 5, 6, 7, 8, 9]);
    assert_eq!(c.candidates_string(), "123456789");
}

#[test]
fn set_unset_and_clear() {
    let mut c = SudokuCell::new();
    c.set(9);
    c.set(3);
    c.set(1);
    assert!(c.get(1) && c.get(3) && c.get(9));
    assert!(!c.get(2));
    assert_eq!(c.size(), 3);
    assert_eq!(c.candidates_string(), "139");
    c.unset(1);
    assert_eq!(c.get_first(), Some(3));
    assert_eq!(digits(&c), vec![3, 9]);
    c.clear();
    assert_eq!(c.size(), 0);
}

#[test]
fn remove_all_subtracts() {
    let mut a = SudokuCell::new_all_set();
    let mut b = SudokuCell::new();
    b.set(2);
    b.set(5);
    b.set(8);
    a.remove_all(&b);
    assert_eq!(digits(&a), vec![1, 3, 4, 6, 7, 9]);
    assert_eq!(a.size(), 6);
}

#[test]
fn lowest_digit_is_smallest() {
    let mut c = SudokuCell::new();
    c.set(7);
    c.set(4);
    assert_eq!(c.get_first(), Some(4));
}

#[test]
fn iteration_restarts() {
    let mut c = SudokuCell::new();
    c.set(2);
    c.set(6);
    let mut it = c.iter();
    assert_eq!(it.next(), Some(2));
    assert_eq!(it.next(), Some(6));
    assert_eq!(it.next(), None);
    assert_eq!(it.next(), None);
    assert_eq!(digits(&c), vec![2, 6]);
}

#[test]
fn stored_bits_stay_within_nine() {
    let mut c = SudokuCell::new_all_set();
    assert_eq!(c.0, 511);
    c.unset(9);
    assert_eq!(c.0, 255);
    c.unset(9);
    assert_eq!(c.0, 255);
    let mut other = SudokuCell::new();
    other.set(1);
    other.set(2);
    c.remove_all(&other);
    assert_eq!(c.0, 252);
    c.clear();
    assert_eq!(c.0, 0);
    assert_eq!(c, SudokuCell::new());
}
