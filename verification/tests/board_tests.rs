use parallel_sudoku::helpers::{GenericError, IntoError};
use parallel_sudoku::sudoku::{SetResult, Sudoku};

const EMPTY_PUZZLE: &str = "_ _ _ _ _ _ _ _ _
_ _ _ _ _ _ _ _ _
_ _ _ _ _ _ _ _ _
_ _ _ _ _ _ _ _ _
_ _ _ _ _ _ _ _ _
_ _ _ _ _ _ _ _ _
_ _ _ _ _ _ _ _ _
_ _ _ _ _ _ _ _ _
_ _ _ _ _ _ _ _ _";

const EASY_PUZZLE: &str = "5 3 _ _ 7 _ _ _ _
6 _ _ 1 9 5 _ _ _
_ 9 8 _ _ _ _ 6 _
8 _ _ _ 6 _ _ _ 3
4 _ _ 8 _ 3 _ _ 1
7 _ _ _ 2 _ _ _ 6
_ 6 _ _ _ _ 2 8 _
_ _ _ 4 1 9 _ _ 5
_ _ _ _ 8 _ _ 7 9";

fn row_of(c: usize) -> usize {
    c / 9
}

fn col_of(c: usize) -> usize {
    c % 9
}

fn sq_of(c: usize) -> usize {
    3 * (c / 27) + (c % 9) / 3
}

#[test]
fn from_str_reads_givens() {
    let s = Sudoku::from_str(EASY_PUZZLE).unwrap();
    assert_eq!(s.get_at(0), 5);
    assert_eq!(s.get_at(1), 3);
    assert_eq!(s.get_at(2), 0);
    assert_eq!(s.get_at(4), 7);
    assert_eq!(s.get_row_col(1, 3), 1);
    assert_eq!(s.get_row_col(8, 8), 9);
    assert_eq!(s.get_row_col(8, 4), 8);
}

#[test]
fn from_str_placeholders_and_odd_tokens_are_empty() {
    let mut text = String::from("12 0 x . _ abc 007 # ?");
    for _ in 0..8 {
        text.push_str("\n_ _ _ _ _ _ _ _ _");
    }
    let s = Sudoku::from_str(&text).unwrap();
    for c in 0..81 {
        assert_eq!(s.get_at(c), 0);
    }
}

#[test]
fn from_str_wrong_token_count_fails() {
    assert!(Sudoku::from_str("1 2 3").is_err());
    let mut long = String::from(EASY_PUZZLE);
    long.push_str(" 4");
    assert!(Sudoku::from_str(&long).is_err());
    assert!(Sudoku::from_str("").is_err());
}

#[test]
fn from_str_colliding_givens_fail() {
    let mut text = String::from("5 _ _ _ _ _ _ _ 5");
    for _ in 0..8 {
        text.push_str("\n_ _ _ _ _ _ _ _ _");
    }
    assert!(Sudoku::from_str(&text).is_err());
}

#[test]
fn from_cells_checks_range_and_count() {
    assert!(Sudoku::from_cells(vec![0u8; 80]).is_err());
    assert!(Sudoku::from_cells(vec![0u8; 82]).is_err());
    let mut vals = vec![0u8; 81];
    vals[7] = 10;
    assert!(Sudoku::from_cells(vals).is_err());
    let mut coll = vec![0u8; 81];
    coll[0] = 9;
    coll[80] = 9;
    assert!(Sudoku::from_cells(coll.clone()).is_ok());
    coll[8] = 9;
    assert!(Sudoku::from_cells(coll).is_err());
}

#[test]
fn set_places_a_legal_digit_once() {
    let mut s = Sudoku::from_str(EMPTY_PUZZLE).unwrap();
    let cell = s.order_at(0) as usize;
    assert_eq!(s.set(0, 5), SetResult::Placed);
    assert_eq!(s.get_at(cell), 5);
    // Legality: 5 now occurs nowhere else in the cell's three groups.
    for c in 0..81 {
        if c != cell
            && (row_of(c) == row_of(cell) || col_of(c) == col_of(cell) || sq_of(c) == sq_of(cell))
        {
            assert_ne!(s.get_at(c), 5);
        }
    }
    // The same cell cannot be set twice.
    assert_eq!(s.set(0, 6), SetResult::NotPlaced);
    assert_eq!(s.get_at(cell), 5);
}

#[test]
fn set_refuses_an_excluded_digit() {
    let mut s = Sudoku::from_str(EMPTY_PUZZLE).unwrap();
    let first = s.order_at(0) as usize;
    assert_eq!(s.set(0, 7), SetResult::Placed);
    // Find a logical position whose cell shares a group with the first cell.
    let mut neighbor = None;
    for pos in 1..81 {
        let c = s.order_at(pos) as usize;
        if row_of(c) == row_of(first) || col_of(c) == col_of(first) || sq_of(c) == sq_of(first) {
            neighbor = Some(pos);
            break;
        }
    }
    let pos = neighbor.unwrap();
    assert!(!s.can_place(pos, 7));
    assert_eq!(s.set(pos, 7), SetResult::NotPlaced);
}

#[test]
fn erase_round_trip_restores_the_digit_choices() {
    let mut s = Sudoku::from_str(EMPTY_PUZZLE).unwrap();
    let cell = s.order_at(3) as usize;
    assert!(s.can_place(3, 4));
    assert_eq!(s.set(3, 4), SetResult::Placed);
    s.erase(3);
    assert_eq!(s.get_at(cell), 0);
    assert!(s.can_place(3, 4));
    let lanes = s.can_place_what(3);
    assert_eq!(lanes[4], 4);
}

#[test]
fn can_place_what_lists_open_digits() {
    let mut s = Sudoku::from_str(EMPTY_PUZZLE).unwrap();
    let lanes = s.can_place_what(0);
    assert_eq!(lanes, [0, 1, 2, 3, 4, 5, 6, 7, 8, 9, 0, 0, 0, 0, 0, 0]);

    let mut s = Sudoku::from_str(EASY_PUZZLE).unwrap();
    // Locate the logical position of grid cell (0, 2): row 0 holds 5, 3, 7;
    // column 2 holds 8; its box holds 5, 3, 6, 9, 8.
    let mut pos = None;
    for p in 0..81 {
        if s.order_at(p) == 2 {
            pos = Some(p);
            break;
        }
    }
    let lanes = s.can_place_what(pos.unwrap());
    assert_eq!(lanes, [0, 1, 2, 0, 4, 0, 0, 0, 0, 0, 0, 0, 0, 0, 0, 0]);
}

#[test]
fn constraint_levels_count_excluded_digits() {
    let s = Sudoku::from_str(EASY_PUZZLE).unwrap();
    // A filled cell sorts last: its level is 0 by definition.
    assert_eq!(s.level_at(0), 0);
    // Grid cell (0, 2) has 5, 3, 7, 8, 6, 9 excluded: level 6.
    assert_eq!(s.level_at(2), 6);
    // On an empty board every level is 0.
    let e = Sudoku::from_str(EMPTY_PUZZLE).unwrap();
    for c in 0..81 {
        assert_eq!(e.level_at(c), 0);
    }
}

#[test]
fn visit_order_is_a_sorted_permutation() {
    let mut s = Sudoku::from_str(EASY_PUZZLE).unwrap();
    let lanes = s.can_place_what(0);
    let digit = (1..10).find(|&d| lanes[d as usize] != 0).unwrap();
    assert_eq!(s.set(0, digit), SetResult::Placed);
    s.update_constraint_order();
    let mut seen = [false; 81];
    for p in 0..81 {
        let c = s.order_at(p) as usize;
        assert!(c < 81);
        assert!(!seen[c]);
        seen[c] = true;
    }
    // Levels along the visit order never increase, and filled cells (level
    // 0) come at or after every cell with a positive level.
    for p in 1..81 {
        let prev = s.level_at(s.order_at(p - 1) as usize);
        let here = s.level_at(s.order_at(p) as usize);
        assert!(prev >= here);
    }
    for p in 0..81 {
        let c = s.order_at(p) as usize;
        if s.get_at(c) != 0 {
            assert_eq!(s.level_at(c), 0);
        }
    }
}

#[test]
fn get_max_constraint_pos_prefers_a_forced_cell() {
    // Build a board where one cell has exactly eight digits excluded.
    let mut text = String::from("_ 1 2 3 4 5 6 7 8");
    for _ in 0..8 {
        text.push_str("\n_ _ _ _ _ _ _ _ _");
    }
    let s = Sudoku::from_str(&text).unwrap();
    assert_eq!(s.level_at(0), 8);
    assert_eq!(s.get_max_constraint_pos(), 0);

    // Without any level-8 cell the first cell of maximal level wins: here
    // the cell right of the four givens, with four digits excluded.
    let mut text = String::from("_ _ _ _ _ _ _ _ _\n1 2 3 4 _ _ _ _ _");
    for _ in 0..7 {
        text.push_str("\n_ _ _ _ _ _ _ _ _");
    }
    let s = Sudoku::from_str(&text).unwrap();
    let r = s.get_max_constraint_pos();
    let max = (0..81).map(|c| s.level_at(c)).max().unwrap();
    assert!(max < 8);
    assert_eq!(max, 4);
    assert_eq!(r, 13);
    assert_eq!(s.level_at(r), max);
    for c in 0..r {
        assert!(s.level_at(c) < max);
    }
}

#[test]
fn duplicate_is_independent_of_its_source() {
    let s = Sudoku::from_str(EASY_PUZZLE).unwrap();
    let mut copy = s.duplicate();
    for c in 0..81 {
        assert_eq!(s.get_at(c), copy.get_at(c));
    }
    // Mutating the copy leaves the source alone.
    let mut pos = 0;
    while copy.has_value(pos) {
        pos += 1;
    }
    let cell = copy.order_at(pos) as usize;
    let lanes = copy.can_place_what(pos);
    let digit = (1..10).find(|&d| lanes[d as usize] != 0).unwrap();
    assert_eq!(copy.set(pos, digit), SetResult::Placed);
    assert_eq!(copy.get_at(cell), digit);
    assert_eq!(s.get_at(cell), 0);
    assert_eq!(s.duplicate().get_at(cell), 0);
}

#[test]
fn render_prints_nine_lines_of_nine() {
    let mut text = String::from("1 2 3 4 5 6 7 8 9");
    for _ in 0..8 {
        text.push_str("\n_ _ _ _ _ _ _ _ _");
    }
    let s = Sudoku::from_str(&text).unwrap();
    let expected = "1 2 3 4 5 6 7 8 9 \n\
                    0 0 0 0 0 0 0 0 0 \n\
                    0 0 0 0 0 0 0 0 0 \n\
                    0 0 0 0 0 0 0 0 0 \n\
                    0 0 0 0 0 0 0 0 0 \n\
                    0 0 0 0 0 0 0 0 0 \n\
                    0 0 0 0 0 0 0 0 0 \n\
                    0 0 0 0 0 0 0 0 0 \n\
                    0 0 0 0 0 0 0 0 0 \n";
    assert_eq!(s.render(), expected);
}

#[test]
fn cells_vec_copies_the_grid() {
    let s = Sudoku::from_str(EASY_PUZZLE).unwrap();
    let v = s.cells_vec();
    assert_eq!(v.len(), 81);
    for c in 0..81 {
        assert_eq!(v[c], s.get_at(c));
    }
}

#[test]
fn generic_errors_carry_their_message() {
    let e = GenericError::new(String::from("boom"));
    assert_eq!(e.message(), "boom");
    let r: Result<u32, GenericError> = String::from("bad input").into_error();
    assert_eq!(r.unwrap_err().message(), "bad input");
    let r2: Result<u32, GenericError> = "no file".into_error();
    assert_eq!(r2.unwrap_err().message(), "no file");
    let parse_err = Sudoku::from_str("1 2 3").unwrap_err();
    assert!(!parse_err.message().is_empty());
}

#[test]
fn underscore_get_reads_through_the_order() {
    let s = Sudoku::from_str(EASY_PUZZLE).unwrap();
    for p in 0..81 {
        assert_eq!(s._get(p), s.get_at(s.order_at(p) as usize));
    }
}
