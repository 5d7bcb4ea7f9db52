use sudoku::Sudoku;

#[test]
fn a_fresh_board_is_all_unknown_with_full_candidates() {
    let s = Sudoku::new();
    assert_eq!(s.remaining_count(), (81, 729));
    assert_eq!(s.get_value_count(0), 81);
    assert!(!s.exam());
}

#[test]
fn clean_restores_the_fresh_state() {
    let mut s = Sudoku::new();
    s.init("530070000600195000098000060800060003400803001700020006060000280000419005000080079");
    s.clean();
    assert_eq!(s.remaining_count(), (81, 729));
    assert_eq!(s.to_string(), "0".repeat(81));
}

#[test]
fn set_value_collapses_the_cell_and_clears_peers() {
    let mut s = Sudoku::new();
    s.set_value((1, 1), 5);
    let row = s.get_row(1);
    assert_eq!(row[0].value, 5);
    assert!(row[0].check_bit(4));
    assert_eq!(row[0].count(), 1);
    // no unassigned peer of (1,1) still carries digit 5
    for c in s.get_row(1).iter().skip(1) {
        assert!(!c.check_bit(4));
    }
    for c in s.get_column(1).iter().skip(1) {
        assert!(!c.check_bit(4));
    }
    for (k, c) in s.get_block(1).iter().enumerate() {
        if k != 0 {
            assert!(!c.check_bit(4));
        }
    }
    // cells sharing no unit keep the candidate
    let far = s.get_row(5);
    assert!(far[5].check_bit(4));
}

#[test]
fn unit_views_use_the_canonical_order() {
    let mut s = Sudoku::new();
    s.set_value((2, 3), 7);
    assert_eq!(s.get_row(2)[2].value, 7);
    assert_eq!(s.get_column(3)[1].value, 7);
    // (2,3) lies in block 1 at slot 5 (row-major within the block)
    assert_eq!(s.get_block(1)[5].value, 7);
}

#[test]
fn block_ids_tile_row_major() {
    let s = Sudoku::new();
    assert_eq!(s.get_block_index((1, 1)), 1);
    assert_eq!(s.get_block_index((1, 9)), 3);
    assert_eq!(s.get_block_index((5, 5)), 5);
    assert_eq!(s.get_block_index((4, 7)), 6);
    assert_eq!(s.get_block_index((9, 9)), 9);
    assert_eq!(s.get_block_index((10, 1)), 0);
    assert_eq!(s.get_block_index((0, 5)), 0);
}

#[test]
fn get_3vec_concatenates_row_column_and_block() {
    let mut s = Sudoku::new();
    s.set_value((4, 6), 9);
    let v = s.get_3vec((4, 6));
    assert_eq!(v.len(), 27);
    assert_eq!(v[5].value, 9); // row part, column 6
    assert_eq!(v[9 + 3].value, 9); // column part, row 4
    assert_eq!(v[18 + 2].value, 9); // block 5, slot 2
}

#[test]
fn get_empty_lists_unassigned_positions_with_blocks() {
    let mut s = Sudoku::new();
    let mut text = String::new();
    for _ in 0..81 {
        text.push('1');
    }
    // fill everything, then reopen two cells by rebuilding from text
    s.init(&text);
    assert_eq!(s.get_empty().len(), 0);
    s.clean();
    s.init("120000000");
    let empties = s.get_empty();
    assert_eq!(empties.len(), 79);
    assert_eq!(empties[0], (1, 3, 1));
    assert_eq!(empties[6], (1, 9, 3));
}

#[test]
fn is_unique_element_counts_block_occurrences() {
    let s = Sudoku::new();
    let v = vec![(1, 1, 1), (1, 2, 1), (4, 4, 5), (9, 9, 9)];
    assert!(!s.is_unique_element(&v, 1));
    assert!(s.is_unique_element(&v, 5));
    assert!(s.is_unique_element(&v, 9));
    assert!(!s.is_unique_element(&v, 2));
}

#[test]
fn clear_value_leaves_the_board_unchanged() {
    let mut s = Sudoku::new();
    s.init("530070000600195000098000060800060003400803001700020006060000280000419005000080079");
    let before = s.to_string();
    let counts = s.remaining_count();
    s.clear_value((1, 1), 5);
    assert_eq!(s.to_string(), before);
    assert_eq!(s.remaining_count(), counts);
}

#[test]
fn init_skips_characters_outside_one_to_nine() {
    let mut s = Sudoku::new();
    s.init("5.3x07");
    let text = s.to_string();
    assert_eq!(&text[0..6], "503007");
    assert_eq!(s.get_value_count(0), 78);
}

#[test]
fn serialization_round_trips_assigned_values() {
    let mut s = Sudoku::new();
    s.init("052400000000070100000000000000802000300000600090500000106030000000000089700000000");
    s.calculate();
    let text = s.to_string();
    let mut t = Sudoku::new();
    t.init(&text);
    assert_eq!(t.to_string(), text);
    for r in 1..=9 {
        let a = s.get_row(r);
        let b = t.get_row(r);
        for k in 0..9 {
            assert_eq!(a[k].value, b[k].value);
        }
    }
}
