use core::sync::atomic::AtomicU64;
use parallel_sudoku::beggar_pool::BeggarPool;
use parallel_sudoku::sudoku::Sudoku;
use parallel_sudoku::worker::{search_exhaustive, search_received, solve_sequential, test_position};

const EASY_PUZZLE: &str = "5 3 _ _ 7 _ _ _ _
6 _ _ 1 9 5 _ _ _
_ 9 8 _ _ _ _ 6 _
8 _ _ _ 6 _ _ _ 3
4 _ _ 8 _ 3 _ _ 1
7 _ _ _ 2 _ _ _ 6
_ 6 _ _ _ _ 2 8 _
_ _ _ 4 1 9 _ _ 5
_ _ _ _ 8 _ _ 7 9";

const EASY_SOLUTION: [u8; 81] = [
    5, 3, 4, 6, 7, 8, 9, 1, 2, //
    6, 7, 2, 1, 9, 5, 3, 4, 8, //
    1, 9, 8, 3, 4, 2, 5, 6, 7, //
    8, 5, 9, 7, 6, 1, 4, 2, 3, //
    4, 2, 6, 8, 5, 3, 7, 9, 1, //
    7, 1, 3, 9, 2, 4, 8, 5, 6, //
    9, 6, 1, 5, 3, 7, 2, 8, 4, //
    2, 8, 7, 4, 1, 9, 6, 3, 5, //
    3, 4, 5, 2, 8, 6, 1, 7, 9,
];

// A conflict-free position whose upper-left cell has all nine digits
// excluded, so no completion exists.
const DEAD_PUZZLE: &str = "_ 1 2 3 4 _ _ _ _
5 8 _ _ _ _ _ _ _
6 _ 9 _ _ _ _ _ _
7 _ _ _ _ _ _ _ _
_ _ _ _ _ _ _ _ _
_ _ _ _ _ _ _ _ _
_ _ _ _ _ _ _ _ _
_ _ _ _ _ _ _ _ _
_ _ _ _ _ _ _ _ _";

fn assert_solved(board: &Sudoku) {
    for c in 0..81 {
        let v = board.get_at(c);
        assert!((1..=9).contains(&v));
    }
    for a in 0..81usize {
        for b in 0..81usize {
            if a != b
                && (a / 9 == b / 9 || a % 9 == b % 9
                    || (3 * (a / 27) + (a % 9) / 3) == (3 * (b / 27) + (b % 9) / 3))
            {
                assert_ne!(board.get_at(a), board.get_at(b));
            }
        }
    }
}

#[test]
fn the_easy_puzzle_has_its_canonical_solution() {
    let puzzle = Sudoku::from_str(EASY_PUZZLE).unwrap();
    let (found, ops) = solve_sequential(&puzzle);
    let solution = found.expect("the puzzle is solvable");
    println!("{}", solution.render());
    assert_solved(&solution);
    // The givens survive into the solution.
    for c in 0..81 {
        if puzzle.get_at(c) != 0 {
            assert_eq!(solution.get_at(c), puzzle.get_at(c));
        }
    }
    for c in 0..81 {
        assert_eq!(solution.get_at(c), EASY_SOLUTION[c]);
    }
    assert!(ops > 0);
}

#[test]
fn the_sequential_operation_count_is_deterministic() {
    let puzzle = Sudoku::from_str(EASY_PUZZLE).unwrap();
    let (first, ops1) = solve_sequential(&puzzle);
    let (second, ops2) = solve_sequential(&puzzle);
    assert!(first.is_some() && second.is_some());
    assert_eq!(ops1, ops2);
}

#[test]
fn an_unsolvable_puzzle_reports_no_solution() {
    let puzzle = Sudoku::from_str(DEAD_PUZZLE).unwrap();
    let (found, ops) = solve_sequential(&puzzle);
    assert!(found.is_none());
    assert!(ops > 0);
}

#[test]
fn a_complete_board_is_returned_as_found() {
    let mut vals = Vec::new();
    vals.extend_from_slice(&EASY_SOLUTION);
    let solved = Sudoku::from_cells(vals).unwrap();
    assert!(solved.is_complete());
    let (found, _) = solve_sequential(&solved);
    let again = found.unwrap();
    for c in 0..81 {
        assert_eq!(again.get_at(c), EASY_SOLUTION[c]);
    }
}

#[test]
fn is_complete_distinguishes_puzzles_from_solutions() {
    let puzzle = Sudoku::from_str(EASY_PUZZLE).unwrap();
    assert!(!puzzle.is_complete());
}

#[test]
fn test_position_leaves_the_board_as_it_found_it() {
    let mut board = Sudoku::from_str(DEAD_PUZZLE).unwrap();
    let before = board.cells_vec();
    let pool: BeggarPool<Sudoku> = BeggarPool::new(1);
    let ops = AtomicU64::new(0);
    let mut counter: u64 = 0;
    let found = test_position(&ops, &mut counter, &mut board, &pool, 0);
    assert!(found.is_none());
    assert_eq!(board.cells_vec(), before);
}

#[test]
fn exhaustive_search_agrees_with_the_sequential_solver() {
    let puzzle = Sudoku::from_str(EASY_PUZZLE).unwrap();
    let mut board = puzzle.duplicate();
    let before = board.cells_vec();
    let mut counter: u64 = 0;
    let found = search_exhaustive(&mut counter, &mut board, 0);
    let solution = found.expect("the puzzle is solvable");
    for c in 0..81 {
        assert_eq!(solution.get_at(c), EASY_SOLUTION[c]);
    }
    // The search hands its board back untouched.
    assert_eq!(board.cells_vec(), before);
    let (_, ops) = solve_sequential(&puzzle);
    assert_eq!(counter, ops);
}

#[test]
fn search_received_rebuilds_and_solves_a_donated_board() {
    let puzzle = Sudoku::from_str(EASY_PUZZLE).unwrap();
    let pool: BeggarPool<Sudoku> = BeggarPool::new(1);
    let ops = AtomicU64::new(0);
    let found = search_received(&ops, &pool, &puzzle);
    let solution = found.expect("the puzzle is solvable");
    assert_solved(&solution);
    for c in 0..81 {
        assert_eq!(solution.get_at(c), EASY_SOLUTION[c]);
    }
}

#[test]
fn search_received_returns_a_complete_board_as_the_solution() {
    let mut vals = Vec::new();
    vals.extend_from_slice(&EASY_SOLUTION);
    let solved = Sudoku::from_cells(vals).unwrap();
    let pool: BeggarPool<Sudoku> = BeggarPool::new(1);
    let ops = AtomicU64::new(0);
    let found = search_received(&ops, &pool, &solved);
    let back = found.expect("a complete legal board is its own solution");
    for c in 0..81 {
        assert_eq!(back.get_at(c), EASY_SOLUTION[c]);
    }
}

#[test]
fn successors_branch_on_the_most_constrained_cell() {
    let mut board = Sudoku::from_str(EASY_PUZZLE).unwrap();
    let cell = board.order_at(0) as usize;
    assert_eq!(board.get_at(cell), 0);
    let lanes = board.can_place_what(0);
    let branches = board.successors();
    assert!(!branches.is_empty());
    let mut expected = 0;
    for d in 1..=9u8 {
        if lanes[d as usize] != 0 {
            expected += 1;
        }
    }
    assert_eq!(branches.len(), expected);
    for branch in &branches {
        let d = branch.get_at(cell);
        assert!((1..=9).contains(&d));
        for c in 0..81 {
            if c != cell {
                assert_eq!(branch.get_at(c), board.get_at(c));
            }
        }
    }
}

#[test]
fn rendering_the_solution_lists_all_digits() {
    let puzzle = Sudoku::from_str(EASY_PUZZLE).unwrap();
    let (found, _) = solve_sequential(&puzzle);
    let text = found.unwrap().render();
    assert_eq!(text.lines().count(), 9);
    assert!(text.starts_with("5 3 4 6 7 8 9 1 2 \n"));
    assert!(!text.contains('0'));
}
