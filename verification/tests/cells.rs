use sudoku::Cell;

fn fresh_cell() -> Cell {
    Cell { row_id: 1, column_id: 1, value: 0, grid: 0x1ff }
}

#[test]
fn check_bit_reads_the_mask() {
    let c = Cell { row_id: 2, column_id: 3, value: 0, grid: 0b1_0100_0001 };
    assert!(c.check_bit(0));
    assert!(!c.check_bit(1));
    assert!(c.check_bit(6));
    assert!(c.check_bit(8));
    assert!(!c.check_bit(7));
}

#[test]
fn clear_bit_removes_one_digit_and_is_idempotent() {
    let mut c = fresh_cell();
    c.clear_bit(4);
    assert!(!c.check_bit(4));
    assert_eq!(c.count(), 8);
    c.clear_bit(4);
    assert!(!c.check_bit(4));
    assert_eq!(c.count(), 8);
    assert_eq!(c.value, 0);
}

#[test]
fn count_and_values_agree_with_the_mask() {
    let c = Cell { row_id: 1, column_id: 1, value: 0, grid: 0b1_0100_0001 };
    assert_eq!(c.count(), 3);
    assert_eq!(c.get_values(), vec![1, 7, 9]);
    let full = fresh_cell();
    assert_eq!(full.count(), 9);
    assert_eq!(full.get_values(), vec![1, 2, 3, 4, 5, 6, 7, 8, 9]);
}

#[test]
fn check_reports_a_naked_single() {
    let mut c = Cell { row_id: 4, column_id: 7, value: 0, grid: 1 << 6 };
    assert_eq!(c.check(), (4, 7, 7));
}

#[test]
fn check_reports_nothing_without_a_naked_single() {
    let mut two = Cell { row_id: 1, column_id: 2, value: 0, grid: 0b11 };
    assert_eq!(two.check(), (0, 0, 0));
    let mut assigned = Cell { row_id: 1, column_id: 2, value: 5, grid: 1 << 4 };
    assert_eq!(assigned.check(), (0, 0, 0));
}
