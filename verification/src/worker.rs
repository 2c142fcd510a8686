use vstd::prelude::*;

use crate::beggar_pool::{BeggarPool, DonationResult};
use crate::sudoku::{
    col_of, digit_excluded, digit_in_col, digit_in_row, extends_cells, group_distinct,
    lemma_all_filled_solved, lemma_prefix_filled_all_filled, lemma_wf_board, order_is_perm,
    row_of, same_group, solved_cells, sq_of, SetResult, Sudoku,
};
use core::sync::atomic::{AtomicU64, Ordering};

verus! {

/// Every `EPOCH_SIZE`-th node a worker visits, it offers its current branch
/// to the pool instead of recursing into it itself.
pub const EPOCH_SIZE: u64 = 10;

/// One node of the backtracking search over the board's visit order.
///
/// The cell visited at `pos` is resolved: a filled cell is skipped, an empty
/// one is tried with every digit in turn.  Each successfully placed digit is
/// either donated away through the pool (on an epoch boundary, when an idle
/// worker takes it) or searched recursively here, and is erased again before
/// the next digit, so the board always comes back exactly as it went in.
/// The first fully filled board found is returned as an independent copy and
/// stops the walk; its legality follows from the board invariant.
pub fn test_position(
    total_ops: &AtomicU64,
    counter: &mut u64,
    sudoku: &mut Sudoku,
    beggar_pool: &BeggarPool<Sudoku>,
    pos: usize,
) -> (found: Option<Sudoku>)
    requires
        old(sudoku).wf(),
        beggar_pool.wf(),
        pos <= 81,
        forall|j: int|
            0 <= j < pos ==> old(sudoku).cells()[#[trigger] old(sudoku).order()[j] as int] != 0,
    ensures
        final(sudoku).wf(),
        final(sudoku).cells() == old(sudoku).cells(),
        final(sudoku).order() == old(sudoku).order(),
        found matches Some(s) ==> s.wf() && solved_cells(s.cells()) && extends_cells(
            old(sudoku).cells(),
            s.cells(),
        ),
        (forall|j: int|
            0 <= j < 81 ==> old(sudoku).cells()[#[trigger] old(sudoku).order()[j] as int] != 0)
            ==> (found matches Some(s) && s.cells() == old(sudoku).cells()),
    decreases 81 - pos,
{
    *counter = counter.wrapping_add(1);
    total_ops.fetch_add(1, Ordering::Relaxed);
    if pos == 81 {
        proof {
            lemma_prefix_filled_all_filled(sudoku);
            lemma_all_filled_solved(sudoku);
        }
        return Some(sudoku.duplicate());
    }
    if sudoku.has_value(pos) {
        return test_position(total_ops, counter, sudoku, beggar_pool, pos + 1);
    }
    let ghost cells0 = sudoku.cells();
    let ghost order0 = sudoku.order();
    proof {
        lemma_wf_board(sudoku);
    }
    let mut k: u8 = 1;
    let mut found: Option<Sudoku> = None;
    while k <= 9 && found.is_none()
        invariant
            sudoku.wf(),
            beggar_pool.wf(),
            sudoku.cells() == cells0,
            sudoku.order() == order0,
            cells0.len() == 81,
            order_is_perm(order0),
            pos < 81,
            cells0[order0[pos as int] as int] == 0,
            forall|j: int| 0 <= j < pos ==> cells0[#[trigger] order0[j] as int] != 0,
            1 <= k <= 10,
            found matches Some(s) ==> s.wf() && solved_cells(s.cells()) && extends_cells(
                cells0,
                s.cells(),
            ),
        decreases 10 - k,
    {
        let res = sudoku.set(pos, k);
        if res == SetResult::Placed {
            let donated = if *counter % EPOCH_SIZE == 1 {
                beggar_pool.donate_work(sudoku)
            } else {
                DonationResult::NotDonated
            };
            if donated == DonationResult::NotDonated {
                proof {
                    lemma_wf_board(sudoku);
                    assert(sudoku.order() == order0);
                    assert(sudoku.cells() == cells0.update(order0[pos as int] as int, k));
                    assert forall|j: int|
                        0 <= j < pos + 1 implies sudoku.cells()[(#[trigger] sudoku.order()[j]) as int]
                        != 0 by {
                        assert(0 <= order0[j] < 81);
                        if j < pos {
                            assert(order0[j] != order0[pos as int]);
                            assert((order0[j] as int) != (order0[pos as int] as int));
                            assert(sudoku.cells()[order0[j] as int] == cells0[order0[j] as int]);
                        } else {
                            assert(sudoku.cells()[order0[pos as int] as int] == k);
                        }
                    }
                }
                let sub = test_position(total_ops, counter, sudoku, beggar_pool, pos + 1);
                proof {
                    if sub is Some {
                        let s = sub->Some_0;
                        assert forall|c: int| 0 <= c < 81 && cells0[c] != 0 implies s.cells()[c]
                            == cells0[c] by {
                            assert(sudoku.cells()[c] == cells0[c]);
                        }
                    }
                }
                found = sub;
            }
            sudoku.erase(pos);
            proof {
                assert(sudoku.cells() =~= cells0);
            }
        }
        k += 1;
    }
    proof {
        // The cell visited here is empty, so the board was not full.
        if forall|j: int| 0 <= j < 81 ==> cells0[#[trigger] order0[j] as int] != 0 {
            assert(cells0[order0[pos as int] as int] != 0);
            assert(false);
        }
    }
    found
}

/// The same walk as `test_position`, donating nothing: every branch is
/// searched here.  Exhaustiveness earns the stronger contract: when nothing
/// is found, no complete legal board extends the given one at all.
pub fn search_exhaustive(counter: &mut u64, sudoku: &mut Sudoku, pos: usize) -> (found: Option<
    Sudoku,
>)
    requires
        old(sudoku).wf(),
        pos <= 81,
        forall|j: int|
            0 <= j < pos ==> old(sudoku).cells()[#[trigger] old(sudoku).order()[j] as int] != 0,
    ensures
        final(sudoku).wf(),
        final(sudoku).cells() == old(sudoku).cells(),
        final(sudoku).order() == old(sudoku).order(),
        found matches Some(s) ==> s.wf() && solved_cells(s.cells()) && extends_cells(
            old(sudoku).cells(),
            s.cells(),
        ),
        found is None ==> forall|sol: Seq<u8>|
            solved_cells(sol) && extends_cells(old(sudoku).cells(), sol) ==> false,
    decreases 81 - pos,
{
    *counter = counter.wrapping_add(1);
    if pos == 81 {
        proof {
            lemma_prefix_filled_all_filled(sudoku);
            lemma_all_filled_solved(sudoku);
        }
        return Some(sudoku.duplicate());
    }
    if sudoku.has_value(pos) {
        return search_exhaustive(counter, sudoku, pos + 1);
    }
    let ghost cells0 = sudoku.cells();
    let ghost order0 = sudoku.order();
    proof {
        lemma_wf_board(sudoku);
    }
    let ghost cell = order0[pos as int] as int;
    let mut k: u8 = 1;
    let mut found: Option<Sudoku> = None;
    while k <= 9 && found.is_none()
        invariant
            sudoku.wf(),
            sudoku.cells() == cells0,
            sudoku.order() == order0,
            cells0.len() == 81,
            order_is_perm(order0),
            pos < 81,
            cell == order0[pos as int] as int,
            cells0[cell] == 0,
            forall|j: int| 0 <= j < pos ==> cells0[#[trigger] order0[j] as int] != 0,
            1 <= k <= 10,
            found matches Some(s) ==> s.wf() && solved_cells(s.cells()) && extends_cells(
                cells0,
                s.cells(),
            ),
            found is None ==> forall|sol: Seq<u8>|
                solved_cells(sol) && extends_cells(cells0, sol) && sol[cell] < k ==> false,
        decreases 10 - k,
    {
        let res = sudoku.set(pos, k);
        if res == SetResult::Placed {
            proof {
                lemma_wf_board(sudoku);
                assert(sudoku.cells() == cells0.update(cell, k));
                assert forall|j: int|
                    0 <= j < pos + 1 implies sudoku.cells()[(#[trigger] sudoku.order()[j]) as int]
                    != 0 by {
                    assert(0 <= order0[j] < 81);
                    if j < pos {
                        assert(order0[j] != order0[pos as int]);
                        assert(sudoku.cells()[order0[j] as int] == cells0[order0[j] as int]);
                    } else {
                        assert(sudoku.cells()[cell] == k);
                    }
                }
            }
            let sub = search_exhaustive(counter, sudoku, pos + 1);
            proof {
                if sub is Some {
                    let s = sub->Some_0;
                    assert forall|c: int| 0 <= c < 81 && cells0[c] != 0 implies s.cells()[c]
                        == cells0[c] by {
                        assert(sudoku.cells()[c] == cells0[c]);
                    }
                } else {
                    {
                        // No solution places k here: one that did would
                        // extend the updated board, which the recursive call
                        // has exhausted.
                        assert forall|sol: Seq<u8>|
                            solved_cells(sol) && extends_cells(cells0, sol) && sol[cell] == k
                                implies false by {
                            assert forall|c: int|
                                0 <= c < 81 && cells0.update(cell, k)[c] != 0 implies sol[c]
                                == cells0.update(cell, k)[c] by {
                                if c != cell {
                                    assert(cells0[c] != 0);
                                }
                            }
                            assert(extends_cells(cells0.update(cell, k), sol));
                        }
                    }
                }
            }
            found = sub;
            sudoku.erase(pos);
            proof {
                assert(sudoku.cells() =~= cells0);
            }
        } else {
            proof {
                // The digit is excluded here, so no solution can hold it in
                // this cell either: the excluding cell is a given that any
                // extension keeps.
                assert(digit_excluded(cells0, cell, k));
                assert forall|sol: Seq<u8>|
                    solved_cells(sol) && extends_cells(cells0, sol) && sol[cell] == k implies false
                     by {
                    if digit_in_row(cells0, row_of(cell), k) {
                        let c = choose|c: int|
                            0 <= c < 81 && row_of(c) == row_of(cell) && cells0[c] == k;
                        assert(sol[c] == k);
                        assert(c != cell);
                        assert(same_group(c, cell));
                        assert(sol[c] != sol[cell]);
                    } else if digit_in_col(cells0, col_of(cell), k) {
                        let c = choose|c: int|
                            0 <= c < 81 && col_of(c) == col_of(cell) && cells0[c] == k;
                        assert(sol[c] == k);
                        assert(c != cell);
                        assert(same_group(c, cell));
                        assert(sol[c] != sol[cell]);
                    } else {
                        let c = choose|c: int|
                            0 <= c < 81 && sq_of(c) == sq_of(cell) && cells0[c] == k;
                        assert(sol[c] == k);
                        assert(c != cell);
                        assert(same_group(c, cell));
                        assert(sol[c] != sol[cell]);
                    }
                }
            }
        }
        k += 1;
    }
    proof {
        if found is None {
            assert forall|sol: Seq<u8>|
                solved_cells(sol) && extends_cells(cells0, sol) implies false by {
                assert(1 <= sol[cell] <= 9);
            }
        }
    }
    found
}

/// Run the whole search on the calling thread alone, donating nothing, and
/// report the number of nodes visited.  The search is exhaustive, so an
/// unsolvable puzzle comes back as no solution rather than hanging: nothing
/// is found exactly when no complete legal board extends this one.
pub fn solve_sequential(sudoku: &Sudoku) -> (r: (Option<Sudoku>, u64))
    requires
        sudoku.wf(),
    ensures
        r.0 matches Some(s) ==> s.wf() && solved_cells(s.cells()) && extends_cells(
            sudoku.cells(),
            s.cells(),
        ),
        r.0 is None ==> forall|sol: Seq<u8>|
            solved_cells(sol) && extends_cells(sudoku.cells(), sol) ==> false,
{
    let mut counter: u64 = 0;
    let mut work = sudoku.duplicate();
    let found = search_exhaustive(&mut counter, &mut work, 0);
    (found, counter)
}

/// One worker cycle on a board that arrived over a channel: adopt its cell
/// values, rebuilding the derived state from scratch as a fresh clone must,
/// and search it.  A board whose cells do not form a legal position is
/// declined rather than searched; one that arrives already complete and
/// legal is returned as the solution.
pub fn search_received(
    total_ops: &AtomicU64,
    beggar_pool: &BeggarPool<Sudoku>,
    received: &Sudoku,
) -> (found: Option<Sudoku>)
    requires
        beggar_pool.wf(),
    ensures
        found matches Some(s) ==> s.wf() && solved_cells(s.cells()) && extends_cells(
            received.cells(),
            s.cells(),
        ),
        solved_cells(received.cells()) ==> (found matches Some(s) && s.cells()
            == received.cells()),
        !(received.cells().len() == 81 && (forall|c: int|
            0 <= c < 81 ==> #[trigger] received.cells()[c] <= 9) && group_distinct(
            received.cells(),
        )) ==> found is None,
{
    let vals = received.cells_vec();
    match Sudoku::from_cells(vals) {
        Ok(mut board) => {
            proof {
                lemma_wf_board(&board);
                if solved_cells(received.cells()) {
                    assert forall|j: int|
                        0 <= j < 81 implies board.cells()[(#[trigger] board.order()[j]) as int]
                        != 0 by {
                        assert(0 <= board.order()[j] < 81);
                        assert(1 <= board.cells()[board.order()[j] as int]);
                    }
                }
            }
            let mut counter: u64 = 0;
            test_position(total_ops, &mut counter, &mut board, beggar_pool, 0)
        },
        Err(_) => {
            proof {
                if solved_cells(received.cells()) {
                    assert forall|c: int|
                        0 <= c < 81 implies #[trigger] received.cells()[c] <= 9 by {
                        assert(1 <= received.cells()[c] <= 9);
                    }
                    assert(false);
                }
            }
            None
        },
    }
}

} // verus!
