use sudoku::Sudoku;

const EASY: &str = "530070000600195000098000060800060003400803001700020006060000280000419005000080079";
const EASY_SOLVED: &str =
    "534678912672195348198342567859761423426853791713924856961537284287419635345286179";
const NEEDS_GUESS: &str =
    "052400000000070100000000000000802000300000600090500000106030000000000089700000000";
const NEEDS_GUESS_SOLVED: &str =
    "652481937834679152971325864467812593315794628298563471186937245523146789749258316";
const COMPLETE: &str =
    "123456789456789123789123456234567891567891234891234567345678912678912345912345678";

#[test]
fn single_given_only_clears_its_peers() {
    let mut s = Sudoku::new();
    let text = format!("5{}", "0".repeat(80));
    s.init(&text);
    s.calculate();
    assert_eq!(s.remaining_count(), (80, 701));
    assert_eq!(s.get_value_count(5), 1);
    assert_eq!(s.get_value_count(0), 80);
    for c in s.get_row(1).iter().skip(1) {
        assert!(!c.check_bit(4));
    }
    for c in s.get_column(1).iter().skip(1) {
        assert!(!c.check_bit(4));
    }
    for (k, c) in s.get_block(1).iter().enumerate() {
        if k != 0 {
            assert!(!c.check_bit(4));
        }
    }
}

#[test]
fn a_complete_grid_is_solved_immediately() {
    let mut s = Sudoku::new();
    s.init(COMPLETE);
    assert!(s.exam());
    assert_eq!(s.remaining_count(), (0, 81));
}

#[test]
fn an_easy_puzzle_solves_by_propagation_alone() {
    let mut s = Sudoku::new();
    s.init(EASY);
    s.calculate();
    assert!(s.exam());
    assert_eq!(s.to_string(), EASY_SOLVED);
}

#[test]
fn a_stalled_puzzle_is_finished_by_the_guess_fallback() {
    let mut s = Sudoku::new();
    s.init(NEEDS_GUESS);
    s.calculate();
    assert!(!s.exam());
    let (unassigned, _) = s.remaining_count();
    assert!(unassigned > 0);
    // at least one unassigned cell with exactly two candidates is available
    let mut twos = 0;
    for r in 1..=9 {
        for c in s.get_row(r) {
            if c.value == 0 && c.count() == 2 {
                twos += 1;
            }
        }
    }
    assert!(twos >= 1);
    s.try_guess();
    assert!(s.exam());
    assert_eq!(s.to_string(), NEEDS_GUESS_SOLVED);
}

#[test]
fn calculate_twice_changes_nothing_more() {
    let mut s = Sudoku::new();
    s.init(NEEDS_GUESS);
    s.calculate();
    let first = s.remaining_count();
    let text = s.to_string();
    s.calculate();
    assert_eq!(s.remaining_count(), first);
    assert_eq!(s.to_string(), text);
}

#[test]
fn candidates_only_shrink_under_propagation() {
    let mut reference = Sudoku::new();
    reference.init(NEEDS_GUESS);
    let mut s = Sudoku::new();
    s.init(NEEDS_GUESS);
    s.calculate();
    for r in 1..=9 {
        let before = reference.get_row(r);
        let after = s.get_row(r);
        for k in 0..9 {
            if after[k].value == 0 {
                for b in 0..9 {
                    if after[k].check_bit(b) {
                        assert!(before[k].check_bit(b));
                    }
                }
            }
        }
    }
}

#[test]
fn hidden_single_assigns_the_only_carrier_in_a_row() {
    // place digit 5 in every column but 5, leaving (1,5) as the sole spot
    // for 5 in row 1
    let mut text = vec!['0'; 81];
    for (r, c) in [(2, 2), (3, 8), (4, 4), (5, 1), (6, 7), (7, 3), (8, 9), (9, 6)] {
        text[(r - 1) * 9 + (c - 1)] = '5';
    }
    let text: String = text.into_iter().collect();
    let mut s = Sudoku::new();
    s.init(&text);
    assert_eq!(s.get_row(1)[4].value, 0);
    s.check_row();
    assert_eq!(s.get_row(1)[4].value, 5);
}

#[test]
fn naked_pair_clears_its_digits_from_the_unit() {
    let mut s = Sudoku::new();
    // craft a pair {8, 9} on the first two cells of row 1
    s.data[0].grid = 0b1_1000_0000;
    s.data[1].grid = 0b1_1000_0000;
    s.check_2and2();
    let row = s.get_row(1);
    assert!(row[0].check_bit(7) && row[0].check_bit(8));
    assert!(row[1].check_bit(7) && row[1].check_bit(8));
    for k in 2..9 {
        assert!(!row[k].check_bit(7));
        assert!(!row[k].check_bit(8));
    }
}

#[test]
fn box_line_reduction_clears_the_row_outside_the_block() {
    let mut s = Sudoku::new();
    // confine digit 1 within block 1 to its top row slice
    for i in [9, 10, 11, 18, 19, 20] {
        s.data[i].grid &= !1u32;
    }
    s.check_row_column_in_block();
    let row = s.get_row(1);
    for k in 0..3 {
        assert!(row[k].check_bit(0));
    }
    for k in 3..9 {
        assert!(!row[k].check_bit(0));
    }
}

#[test]
fn naked_single_pass_assigns_sole_candidates() {
    let mut s = Sudoku::new();
    s.data[40].grid = 1 << 2; // (5,5) can only be 3
    s.check_all_cells();
    assert_eq!(s.get_row(5)[4].value, 3);
}

#[test]
fn exam_flags_an_over_wide_mask_on_a_full_board() {
    let mut s = Sudoku::new();
    s.init(COMPLETE);
    assert!(s.exam());
    // widen one assigned cell's mask: still 0 unassigned, but the candidate
    // total no longer matches a solved board
    s.data[0].grid = 0b11;
    assert_eq!(s.remaining_count().0, 0);
    assert_ne!(s.remaining_count().1, 81);
    assert!(!s.exam());
}

#[test]
fn guess_exhaustion_restores_the_stalled_board() {
    // a puzzle whose two- and three-candidate guesses all fail
    let hard = "100007090030020008009600500005300900010080002600004000300000010040000007007000300";
    let mut s = Sudoku::new();
    s.init(hard);
    s.calculate();
    let stalled_counts = s.remaining_count();
    let stalled_text = s.to_string();
    assert!(!s.exam());
    s.try_guess();
    assert!(!s.exam());
    assert_eq!(s.remaining_count(), stalled_counts);
    assert_eq!(s.to_string(), stalled_text);
}

#[test]
fn exam_reports_a_stalled_board_as_unsolved() {
    let mut s = Sudoku::new();
    s.init(NEEDS_GUESS);
    s.calculate();
    assert!(!s.exam());
    let (unassigned, total) = s.remaining_count();
    assert!(unassigned > 0);
    assert!(total > 81);
}
