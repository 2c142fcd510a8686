use vstd::prelude::*;

use crate::helpers::{GenericError, IntoError};
use vstd::string::StringSliceAdditionalSpecFns;

verus! {

// ---------------------------------------------------------------------------
// The mathematical model of a 9 x 9 constraint board.
//
// A board is a sequence of 81 cells, each 0 (empty) or a digit 1..=9.  Every
// cell belongs to three constraint groups: its row, its column and its 3 x 3
// box.  A digit may be placed in a cell only if no other cell of one of those
// three groups already holds it.
// ---------------------------------------------------------------------------

/// Row index (0..9) of a cell position (0..81).
pub open spec fn row_of(c: int) -> int {
    c / 9
}

/// Column index (0..9) of a cell position (0..81).
pub open spec fn col_of(c: int) -> int {
    c % 9
}

/// Box index (0..9) of a cell position (0..81).
pub open spec fn sq_of(c: int) -> int {
    3 * (c / 27) + (c % 9) / 3
}

/// Two cell positions share a row, a column or a box.
pub open spec fn same_group(a: int, b: int) -> bool {
    row_of(a) == row_of(b) || col_of(a) == col_of(b) || sq_of(a) == sq_of(b)
}

/// Digit `d` appears somewhere in row `r`.
pub open spec fn digit_in_row(cells: Seq<u8>, r: int, d: u8) -> bool {
    exists|c: int| 0 <= c < 81 && row_of(c) == r && cells[c] == d
}

/// Digit `d` appears somewhere in column `k`.
pub open spec fn digit_in_col(cells: Seq<u8>, k: int, d: u8) -> bool {
    exists|c: int| 0 <= c < 81 && col_of(c) == k && cells[c] == d
}

/// Digit `d` appears somewhere in box `s`.
pub open spec fn digit_in_sq(cells: Seq<u8>, s: int, d: u8) -> bool {
    exists|c: int| 0 <= c < 81 && sq_of(c) == s && cells[c] == d
}

/// Digit `d` is excluded at position `pos` by its row, column or box.
pub open spec fn digit_excluded(cells: Seq<u8>, pos: int, d: u8) -> bool {
    ||| digit_in_row(cells, row_of(pos), d)
    ||| digit_in_col(cells, col_of(pos), d)
    ||| digit_in_sq(cells, sq_of(pos), d)
}

/// Number of digits among 1..=d that are excluded at `pos`.
pub open spec fn excluded_count_up_to(cells: Seq<u8>, pos: int, d: int) -> nat
    decreases d,
{
    if d <= 0 {
        0
    } else {
        excluded_count_up_to(cells, pos, d - 1) + (if digit_excluded(cells, pos, d as u8) {
            1nat
        } else {
            0nat
        })
    }
}

/// The constraint level of a cell: the count of distinct digits its row,
/// column and box already exclude, or 0 for a cell that is already filled.
pub open spec fn level_of(cells: Seq<u8>, pos: int) -> nat {
    if cells[pos] != 0 {
        0
    } else {
        excluded_count_up_to(cells, pos, 9)
    }
}

/// No two distinct cells of one group hold the same digit.
pub open spec fn group_distinct(cells: Seq<u8>) -> bool {
    forall|a: int, b: int|
        0 <= a < 81 && 0 <= b < 81 && a != b && same_group(a, b) && cells[a] != 0 ==> cells[a]
            != cells[b]
}

/// A valid visit order: 81 pairwise-distinct cell positions below 81.
pub open spec fn order_is_perm(ord: Seq<u8>) -> bool {
    &&& ord.len() == 81
    &&& forall|i: int| 0 <= i < 81 ==> ord[i] < 81
    &&& forall|i: int, j: int| 0 <= i < 81 && 0 <= j < 81 && i != j ==> ord[i] != ord[j]
}

/// A completely and legally filled board.
pub open spec fn solved_cells(cells: Seq<u8>) -> bool {
    &&& cells.len() == 81
    &&& forall|c: int| 0 <= c < 81 ==> 1 <= #[trigger] cells[c] && cells[c] <= 9
    &&& group_distinct(cells)
}

/// `b` fills in `a` without disturbing any already-filled cell.
pub open spec fn extends_cells(a: Seq<u8>, b: Seq<u8>) -> bool {
    forall|c: int| 0 <= c < 81 && a[c] != 0 ==> b[c] == a[c]
}

// ---------------------------------------------------------------------------
// Puzzle text: whitespace-separated tokens, one per cell.  A token that is a
// lone digit 1..=9 gives that digit; any other token stands for an empty
// cell.
// ---------------------------------------------------------------------------

/// A token separator: an ASCII whitespace byte.
pub open spec fn is_sep(b: u8) -> bool {
    b == 9 || b == 10 || b == 11 || b == 12 || b == 13 || b == 32
}

/// The cell value a single token stands for.
pub open spec fn token_value(t: Seq<u8>) -> u8 {
    if t.len() == 1 && 0x31 <= t[0] <= 0x39 {
        (t[0] - 0x30) as u8
    } else {
        0u8
    }
}

/// The cell values that the tokens of `b` stand for, given the token read so
/// far.
pub open spec fn givens_scan(b: Seq<u8>, cur: Option<Seq<u8>>) -> Seq<u8>
    decreases b.len(),
{
    if b.len() == 0 {
        match cur {
            Option::None => Seq::empty(),
            Option::Some(t) => seq![token_value(t)],
        }
    } else if is_sep(b[0]) {
        match cur {
            Option::None => givens_scan(b.drop_first(), Option::None),
            Option::Some(t) => seq![token_value(t)] + givens_scan(b.drop_first(), Option::None),
        }
    } else {
        givens_scan(
            b.drop_first(),
            Option::Some(
                match cur {
                    Option::None => seq![b[0]],
                    Option::Some(t) => t.push(b[0]),
                },
            ),
        )
    }
}

/// The cell values that the whitespace-separated tokens of `b` stand for.
pub open spec fn givens_of(b: Seq<u8>) -> Seq<u8> {
    givens_scan(b, Option::None)
}

/// Every parsed cell value is 0 or a digit.
proof fn lemma_givens_le9(b: Seq<u8>, cur: Option<Seq<u8>>)
    ensures
        forall|k: int|
            0 <= k < givens_scan(b, cur).len() ==> #[trigger] givens_scan(b, cur)[k] <= 9,
    decreases b.len(),
{
    assert forall|t: Seq<u8>| token_value(t) <= 9 by {}
    let r = givens_scan(b, cur);
    if b.len() == 0 {
        match cur {
            Option::None => {},
            Option::Some(t) => {
                assert forall|k: int| 0 <= k < r.len() implies #[trigger] r[k] <= 9 by {
                    assert(r[0] == token_value(t));
                }
            },
        }
    } else if is_sep(b[0]) {
        lemma_givens_le9(b.drop_first(), Option::None);
        let tail = givens_scan(b.drop_first(), Option::<Seq<u8>>::None);
        match cur {
            Option::None => {
                assert forall|k: int| 0 <= k < r.len() implies #[trigger] r[k] <= 9 by {
                    assert(r[k] == tail[k]);
                }
            },
            Option::Some(t) => {
                assert forall|k: int| 0 <= k < r.len() implies #[trigger] r[k] <= 9 by {
                    if k == 0 {
                        assert(r[0] == token_value(t));
                    } else {
                        assert(r[k] == tail[k - 1]);
                    }
                }
            },
        }
    } else {
        match cur {
            Option::None => {
                lemma_givens_le9(b.drop_first(), Option::Some(seq![b[0]]));
                let tail = givens_scan(b.drop_first(), Option::Some(seq![b[0]]));
                assert forall|k: int| 0 <= k < r.len() implies #[trigger] r[k] <= 9 by {
                    assert(r[k] == tail[k]);
                }
            },
            Option::Some(t) => {
                lemma_givens_le9(b.drop_first(), Option::Some(t.push(b[0])));
                let tail = givens_scan(b.drop_first(), Option::Some(t.push(b[0])));
                assert forall|k: int| 0 <= k < r.len() implies #[trigger] r[k] <= 9 by {
                    assert(r[k] == tail[k]);
                }
            },
        }
    }
}

/// The flag stored for group `g` and digit `d` in a 9 x 16 flag table.
pub open spec fn flag_at(t: Seq<u8>, g: int, d: int) -> u8 {
    t[g * 16 + d]
}

/// The character a cell value prints as: its decimal digit.
pub open spec fn digit_char(v: u8) -> char {
    ((0x30 + v) as u8) as char
}

/// The rendered grid: nine lines, each holding nine cells followed by one
/// space each, closed by a newline.
pub open spec fn render_grid(cells: Seq<u8>) -> Seq<char> {
    Seq::new(
        171nat,
        |i: int|
            {
                let o = i % 19;
                if o == 18 {
                    '\n'
                } else if o % 2 == 1 {
                    ' '
                } else {
                    digit_char(cells[(i / 19) * 9 + o / 2])
                }
            },
    )
}

/// Outcome of an attempt to place a digit.
#[derive(PartialEq, Eq, Structural, Debug)]
pub enum SetResult {
    Placed,
    NotPlaced,
}

// ---------------------------------------------------------------------------
// The board itself.
//
// Beside the cells, the board caches one flag per (group, digit) pair in
// three fixed-width tables, so a legality check reads three flags instead of
// scanning group members, and it caches every cell's constraint level.  Rows
// of the tables are 16 wide so that a (group, digit) pair maps to
// group * 16 + digit.
// ---------------------------------------------------------------------------

#[derive(Clone, Debug)]
pub struct Sudoku {
    matrix: [u8; 81],
    constraint_order: [u8; 81],
    constraint_level: [u8; 81],
    row_constraint_table: [u8; 144],
    col_constraint_table: [u8; 144],
    sq_constraint_table: [u8; 144],
}

impl Sudoku {
    /// The 81 cell values.
    pub closed spec fn cells(&self) -> Seq<u8> {
        self.matrix@
    }

    /// The visit order over cell positions.
    pub closed spec fn order(&self) -> Seq<u8> {
        self.constraint_order@
    }

    /// The cached constraint levels.
    pub closed spec fn levels(&self) -> Seq<u8> {
        self.constraint_level@
    }

    /// Cell values are in range.
    spec fn cells_ok(&self) -> bool {
        forall|c: int| 0 <= c < 81 ==> self.matrix@[c] <= 9
    }

    /// Each flag table entry is 1 exactly when its digit appears in its group.
    spec fn tables_ok(&self) -> bool {
        &&& forall|g: int, d: int|
            0 <= g < 9 && 0 <= d < 16 ==> #[trigger] flag_at(self.row_constraint_table@, g, d)
                == (if 1 <= d <= 9 && digit_in_row(self.matrix@, g, d as u8) {
                1u8
            } else {
                0u8
            })
        &&& forall|g: int, d: int|
            0 <= g < 9 && 0 <= d < 16 ==> #[trigger] flag_at(self.col_constraint_table@, g, d)
                == (if 1 <= d <= 9 && digit_in_col(self.matrix@, g, d as u8) {
                1u8
            } else {
                0u8
            })
        &&& forall|g: int, d: int|
            0 <= g < 9 && 0 <= d < 16 ==> #[trigger] flag_at(self.sq_constraint_table@, g, d)
                == (if 1 <= d <= 9 && digit_in_sq(self.matrix@, g, d as u8) {
                1u8
            } else {
                0u8
            })
    }

    /// Each cached level equals the level derived from the cells.
    spec fn levels_ok(&self) -> bool {
        forall|c: int| 0 <= c < 81 ==> self.constraint_level@[c] == level_of(self.matrix@, c)
    }

    /// The board invariant: every mutation preserves it.
    pub closed spec fn wf(&self) -> bool {
        &&& self.cells_ok()
        &&& self.tables_ok()
        &&& group_distinct(self.matrix@)
        &&& self.levels_ok()
        &&& order_is_perm(self.constraint_order@)
    }

    /// The visit order puts more constrained cells first.
    pub closed spec fn order_sorted(&self) -> bool {
        forall|i: int, j: int|
            0 <= i < j < 81 ==> level_of(self.matrix@, self.constraint_order@[i] as int)
                >= level_of(self.matrix@, self.constraint_order@[j] as int)
    }

    /// The raw value of the cell at grid position `pos`.
    pub fn get_at(&self, pos: usize) -> (v: u8)
        requires
            pos < 81,
        ensures
            v == self.cells()[pos as int],
    {
        self.matrix[pos]
    }

    /// The value of the cell at `row`, `col`.
    pub fn get_row_col(&self, row: usize, col: usize) -> (v: u8)
        requires
            row < 9,
            col < 9,
        ensures
            v == self.cells()[row * 9 + col],
    {
        self.get_at(row * 9 + col)
    }

    /// The grid position visited at logical position `pos`.
    pub fn order_at(&self, pos: usize) -> (c: u8)
        requires
            pos < 81,
        ensures
            c == self.order()[pos as int],
    {
        self.constraint_order[pos]
    }

    /// The cached constraint level of the cell at grid position `pos`.
    pub fn level_at(&self, pos: usize) -> (l: u8)
        requires
            self.wf(),
            pos < 81,
        ensures
            l == level_of(self.cells(), pos as int),
    {
        self.constraint_level[pos]
    }

    /// The raw value of the cell visited at logical position `pos`.
    pub fn _get(&self, pos: usize) -> (v: u8)
        requires
            self.wf(),
            pos < 81,
        ensures
            v == self.cells()[self.order()[pos as int] as int],
    {
        let cell = self.constraint_order[pos] as usize;
        self.get_at(cell)
    }

    /// Whether the cell visited at logical position `pos` is filled.
    pub fn has_value(&self, pos: usize) -> (b: bool)
        requires
            self.wf(),
            pos < 81,
        ensures
            b == (self.cells()[self.order()[pos as int] as int] != 0),
    {
        self._get(pos) > 0
    }

    /// All 81 cell values, in grid order.
    pub fn cells_vec(&self) -> (v: Vec<u8>)
        ensures
            v@ == self.cells(),
    {
        let mut v: Vec<u8> = Vec::new();
        let mut i: usize = 0;
        while i < 81
            invariant
                i <= 81,
                v@ == self.matrix@.take(i as int),
            decreases 81 - i,
        {
            v.push(self.matrix[i]);
            proof {
                assert(v@ =~= self.matrix@.take(i + 1));
            }
            i += 1;
        }
        proof {
            assert(v@ =~= self.matrix@);
        }
        v
    }

    /// Whether digit `value` is excluded at grid position `pos` by none of
    /// the three flag tables.
    fn can_place_at(&self, pos: usize, value: u8) -> (b: bool)
        requires
            self.tables_ok(),
            pos < 81,
            1 <= value <= 9,
        ensures
            b == !digit_excluded(self.matrix@, pos as int, value),
    {
        let r = row_of_cell(pos);
        let c = col_of_cell(pos);
        let s = sq_of_cell(pos);
        let v = value as usize;
        let b = self.row_constraint_table[r * 16 + v] != 1 && self.col_constraint_table[c * 16 + v]
            != 1 && self.sq_constraint_table[s * 16 + v] != 1;
        proof {
            assert(flag_at(self.row_constraint_table@, r as int, v as int)
                == self.row_constraint_table@[r as int * 16 + v as int]);
            assert(flag_at(self.col_constraint_table@, c as int, v as int)
                == self.col_constraint_table@[c as int * 16 + v as int]);
            assert(flag_at(self.sq_constraint_table@, s as int, v as int)
                == self.sq_constraint_table@[s as int * 16 + v as int]);
        }
        b
    }

    /// The constraint level of the cell at grid position `pos`, derived from
    /// the three flag tables.
    fn compute_level_at(&self, pos: usize) -> (l: u8)
        requires
            self.tables_ok(),
            pos < 81,
        ensures
            l == level_of(self.matrix@, pos as int),
            l <= 9,
    {
        if self.matrix[pos] > 0 {
            return 0;
        }
        let r = row_of_cell(pos);
        let c = col_of_cell(pos);
        let s = sq_of_cell(pos);
        let mut count: u8 = 0;
        let mut d: usize = 1;
        while d <= 9
            invariant
                self.tables_ok(),
                pos < 81,
                self.matrix@[pos as int] == 0,
                r == row_of(pos as int),
                c == col_of(pos as int),
                s == sq_of(pos as int),
                r < 9,
                c < 9,
                s < 9,
                1 <= d <= 10,
                count == excluded_count_up_to(self.matrix@, pos as int, d - 1),
                count < d,
            decreases 10 - d,
        {
            let excluded = self.row_constraint_table[r * 16 + d] == 1
                || self.col_constraint_table[c * 16 + d] == 1 || self.sq_constraint_table[s * 16
                + d] == 1;
            proof {
                assert(flag_at(self.row_constraint_table@, r as int, d as int)
                    == self.row_constraint_table@[r as int * 16 + d as int]);
                assert(flag_at(self.col_constraint_table@, c as int, d as int)
                    == self.col_constraint_table@[c as int * 16 + d as int]);
                assert(flag_at(self.sq_constraint_table@, s as int, d as int)
                    == self.sq_constraint_table@[s as int * 16 + d as int]);
                assert(excluded == digit_excluded(self.matrix@, pos as int, d as u8));
            }
            if excluded {
                count += 1;
            }
            d += 1;
        }
        count
    }

    /// Place digit `value` in the empty grid cell `pos`, maintaining the flag
    /// tables and the cached levels; the visit order is left alone.
    fn unchecked_set_at(&mut self, pos: usize, value: u8)
        requires
            old(self).cells_ok(),
            old(self).tables_ok(),
            group_distinct(old(self).matrix@),
            old(self).levels_ok(),
            pos < 81,
            1 <= value <= 9,
            old(self).cells()[pos as int] == 0,
            !digit_excluded(old(self).cells(), pos as int, value),
        ensures
            final(self).cells_ok(),
            final(self).tables_ok(),
            group_distinct(final(self).matrix@),
            final(self).levels_ok(),
            final(self).cells() == old(self).cells().update(pos as int, value),
            final(self).order() == old(self).order(),
    {
        let ghost a = self.matrix@;
        let r = row_of_cell(pos);
        let c = col_of_cell(pos);
        let s = sq_of_cell(pos);
        let v = value as usize;
        self.row_constraint_table[r * 16 + v] = 1;
        self.col_constraint_table[c * 16 + v] = 1;
        self.sq_constraint_table[s * 16 + v] = 1;
        self.matrix[pos] = value;
        let ghost m = self.matrix@;
        proof {
            assert(m == a.update(pos as int, value));
            // The new tables match the new cells.
            assert forall|g: int, d: int| 0 <= g < 9 && 0 <= d < 16 implies #[trigger] flag_at(
                self.row_constraint_table@,
                g,
                d,
            ) == (if 1 <= d <= 9 && digit_in_row(m, g, d as u8) {
                1u8
            } else {
                0u8
            }) by {
                if 1 <= d <= 9 {
                    lemma_in_row_after_set(a, pos as int, value, g, d as u8);
                }
                assert(flag_at(old(self).row_constraint_table@, g, d) == (if 1 <= d <= 9
                    && digit_in_row(a, g, d as u8) {
                    1u8
                } else {
                    0u8
                }));
            }
            assert forall|g: int, d: int| 0 <= g < 9 && 0 <= d < 16 implies #[trigger] flag_at(
                self.col_constraint_table@,
                g,
                d,
            ) == (if 1 <= d <= 9 && digit_in_col(m, g, d as u8) {
                1u8
            } else {
                0u8
            }) by {
                if 1 <= d <= 9 {
                    lemma_in_col_after_set(a, pos as int, value, g, d as u8);
                }
                assert(flag_at(old(self).col_constraint_table@, g, d) == (if 1 <= d <= 9
                    && digit_in_col(a, g, d as u8) {
                    1u8
                } else {
                    0u8
                }));
            }
            assert forall|g: int, d: int| 0 <= g < 9 && 0 <= d < 16 implies #[trigger] flag_at(
                self.sq_constraint_table@,
                g,
                d,
            ) == (if 1 <= d <= 9 && digit_in_sq(m, g, d as u8) {
                1u8
            } else {
                0u8
            }) by {
                if 1 <= d <= 9 {
                    lemma_in_sq_after_set(a, pos as int, value, g, d as u8);
                }
                assert(flag_at(old(self).sq_constraint_table@, g, d) == (if 1 <= d <= 9
                    && digit_in_sq(a, g, d as u8) {
                    1u8
                } else {
                    0u8
                }));
            }
            // The new cells keep the groups duplicate free.
            assert forall|x: int, y: int|
                0 <= x < 81 && 0 <= y < 81 && x != y && same_group(x, y) && m[x] != 0 implies m[x]
                != m[y] by {
                if x == pos as int {
                    if m[y] == value {
                        if row_of(y) == row_of(pos as int) {
                            assert(digit_in_row(a, row_of(pos as int), value));
                        } else if col_of(y) == col_of(pos as int) {
                            assert(digit_in_col(a, col_of(pos as int), value));
                        } else {
                            assert(digit_in_sq(a, sq_of(pos as int), value));
                        }
                        assert(false);
                    }
                } else if y == pos as int {
                    if m[x] == value {
                        if row_of(x) == row_of(pos as int) {
                            assert(digit_in_row(a, row_of(pos as int), value));
                        } else if col_of(x) == col_of(pos as int) {
                            assert(digit_in_col(a, col_of(pos as int), value));
                        } else {
                            assert(digit_in_sq(a, sq_of(pos as int), value));
                        }
                        assert(false);
                    }
                }
            }
        }
        self.refresh_levels(pos, Ghost(a));
    }

    /// Clear the grid cell `pos`, maintaining the flag tables and the cached
    /// levels; the visit order is left alone.
    fn clear_at(&mut self, pos: usize)
        requires
            old(self).cells_ok(),
            old(self).tables_ok(),
            group_distinct(old(self).matrix@),
            old(self).levels_ok(),
            pos < 81,
        ensures
            final(self).cells_ok(),
            final(self).tables_ok(),
            group_distinct(final(self).matrix@),
            final(self).levels_ok(),
            final(self).cells() == old(self).cells().update(pos as int, 0u8),
            final(self).order() == old(self).order(),
    {
        let ghost a = self.matrix@;
        if self.matrix[pos] == 0 {
            proof {
                assert(final(self).cells() =~= old(self).cells().update(pos as int, 0u8));
            }
            return ;
        }
        let value = self.matrix[pos];
        let r = row_of_cell(pos);
        let c = col_of_cell(pos);
        let s = sq_of_cell(pos);
        let v = value as usize;
        self.row_constraint_table[r * 16 + v] = 0;
        self.col_constraint_table[c * 16 + v] = 0;
        self.sq_constraint_table[s * 16 + v] = 0;
        self.matrix[pos] = 0;
        let ghost m = self.matrix@;
        proof {
            assert(m == a.update(pos as int, 0u8));
            assert forall|g: int, d: int| 0 <= g < 9 && 0 <= d < 16 implies #[trigger] flag_at(
                self.row_constraint_table@,
                g,
                d,
            ) == (if 1 <= d <= 9 && digit_in_row(m, g, d as u8) {
                1u8
            } else {
                0u8
            }) by {
                if 1 <= d <= 9 {
                    lemma_in_row_after_clear(a, pos as int, g, d as u8);
                }
                assert(flag_at(old(self).row_constraint_table@, g, d) == (if 1 <= d <= 9
                    && digit_in_row(a, g, d as u8) {
                    1u8
                } else {
                    0u8
                }));
            }
            assert forall|g: int, d: int| 0 <= g < 9 && 0 <= d < 16 implies #[trigger] flag_at(
                self.col_constraint_table@,
                g,
                d,
            ) == (if 1 <= d <= 9 && digit_in_col(m, g, d as u8) {
                1u8
            } else {
                0u8
            }) by {
                if 1 <= d <= 9 {
                    lemma_in_col_after_clear(a, pos as int, g, d as u8);
                }
                assert(flag_at(old(self).col_constraint_table@, g, d) == (if 1 <= d <= 9
                    && digit_in_col(a, g, d as u8) {
                    1u8
                } else {
                    0u8
                }));
            }
            assert forall|g: int, d: int| 0 <= g < 9 && 0 <= d < 16 implies #[trigger] flag_at(
                self.sq_constraint_table@,
                g,
                d,
            ) == (if 1 <= d <= 9 && digit_in_sq(m, g, d as u8) {
                1u8
            } else {
                0u8
            }) by {
                if 1 <= d <= 9 {
                    lemma_in_sq_after_clear(a, pos as int, g, d as u8);
                }
                assert(flag_at(old(self).sq_constraint_table@, g, d) == (if 1 <= d <= 9
                    && digit_in_sq(a, g, d as u8) {
                    1u8
                } else {
                    0u8
                }));
            }
        }
        self.refresh_levels(pos, Ghost(a));
    }

    /// Recompute the cached level of every cell that shares a group with the
    /// grid cell `pos`, whose value just moved; `Ghost(a)` is the cell
    /// sequence from before the move.
    fn refresh_levels(&mut self, pos: usize, Ghost(a): Ghost<Seq<u8>>)
        requires
            old(self).cells_ok(),
            old(self).tables_ok(),
            pos < 81,
            a.len() == 81,
            forall|q: int| 0 <= q < 81 ==> old(self).constraint_level@[q] == level_of(a, q),
            forall|q: int| 0 <= q < 81 && q != pos ==> a[q] == old(self).matrix@[q],
        ensures
            final(self).cells_ok(),
            final(self).tables_ok(),
            final(self).levels_ok(),
            final(self).matrix@ == old(self).matrix@,
            final(self).order() == old(self).order(),
            final(self).row_constraint_table@ == old(self).row_constraint_table@,
            final(self).col_constraint_table@ == old(self).col_constraint_table@,
            final(self).sq_constraint_table@ == old(self).sq_constraint_table@,
    {
        let ghost m = self.matrix@;
        let ghost lv0 = self.constraint_level@;
        let r = row_of_cell(pos);
        let c = col_of_cell(pos);
        let s = sq_of_cell(pos);
        let mut i: usize = 0;
        while i < 81
            invariant
                i <= 81,
                pos < 81,
                r == row_of(pos as int),
                c == col_of(pos as int),
                s == sq_of(pos as int),
                self.cells_ok(),
                self.tables_ok(),
                self.matrix@ == m,
                self.constraint_order@ == old(self).constraint_order@,
                self.row_constraint_table@ == old(self).row_constraint_table@,
                self.col_constraint_table@ == old(self).col_constraint_table@,
                self.sq_constraint_table@ == old(self).sq_constraint_table@,
                a.len() == 81,
                forall|q: int| 0 <= q < 81 && q != pos ==> a[q] == m[q],
                forall|q: int| 0 <= q < 81 ==> lv0[q] == level_of(a, q),
                forall|q: int|
                    0 <= q < i ==> self.constraint_level@[q] == (if same_group(q, pos as int) {
                        level_of(m, q)
                    } else {
                        lv0[q] as nat
                    }),
                forall|q: int| i <= q < 81 ==> self.constraint_level@[q] == lv0[q],
            decreases 81 - i,
        {
            if row_of_cell(i) == r || col_of_cell(i) == c || sq_of_cell(i) == s {
                let l = self.compute_level_at(i);
                self.constraint_level[i] = l;
            }
            i += 1;
        }
        proof {
            assert forall|q: int| 0 <= q < 81 implies self.constraint_level@[q] == level_of(
                self.matrix@,
                q,
            ) by {
                if !same_group(q, pos as int) {
                    lemma_level_unchanged(a, m, q);
                }
            }
        }
    }

    /// Attempt to place `value` in the grid cell `pos`: the cell must be
    /// empty and the digit not excluded, else nothing changes.
    fn set_at(&mut self, pos: usize, value: u8) -> (res: SetResult)
        requires
            old(self).cells_ok(),
            old(self).tables_ok(),
            group_distinct(old(self).matrix@),
            old(self).levels_ok(),
            pos < 81,
            1 <= value <= 9,
        ensures
            final(self).cells_ok(),
            final(self).tables_ok(),
            group_distinct(final(self).matrix@),
            final(self).levels_ok(),
            final(self).order() == old(self).order(),
            (res == SetResult::Placed) == (old(self).matrix@[pos as int] == 0 && !digit_excluded(
                old(self).matrix@,
                pos as int,
                value,
            )),
            res == SetResult::Placed ==> final(self).cells() == old(self).cells().update(
                pos as int,
                value,
            ),
            res == SetResult::NotPlaced ==> final(self).cells() == old(self).cells(),
    {
        if self.matrix[pos] != 0 {
            return SetResult::NotPlaced;
        }
        if !self.can_place_at(pos, value) {
            return SetResult::NotPlaced;
        }
        self.unchecked_set_at(pos, value);
        SetResult::Placed
    }

    /// Attempt to place `value` in the cell visited at logical position
    /// `pos`; fails, changing nothing, when the cell is filled or the digit
    /// is excluded there.
    pub fn set(&mut self, pos: usize, value: u8) -> (res: SetResult)
        requires
            old(self).wf(),
            pos < 81,
            1 <= value <= 9,
        ensures
            final(self).wf(),
            final(self).order() == old(self).order(),
            (res == SetResult::Placed) == (old(self).cells()[old(self).order()[pos as int] as int]
                == 0 && !digit_excluded(
                old(self).cells(),
                old(self).order()[pos as int] as int,
                value,
            )),
            res == SetResult::Placed ==> final(self).cells() == old(self).cells().update(
                old(self).order()[pos as int] as int,
                value,
            ),
            res == SetResult::NotPlaced ==> final(self).cells() == old(self).cells(),
    {
        let cell = self.constraint_order[pos] as usize;
        self.set_at(cell, value)
    }

    /// Place `value` in the cell visited at logical position `pos`; the
    /// caller promises that the cell is empty and the digit not excluded.
    pub fn unchecked_set(&mut self, pos: usize, value: u8)
        requires
            old(self).wf(),
            pos < 81,
            1 <= value <= 9,
            old(self).cells()[old(self).order()[pos as int] as int] == 0,
            !digit_excluded(old(self).cells(), old(self).order()[pos as int] as int, value),
        ensures
            final(self).wf(),
            final(self).order() == old(self).order(),
            final(self).cells() == old(self).cells().update(
                old(self).order()[pos as int] as int,
                value,
            ),
    {
        let cell = self.constraint_order[pos] as usize;
        self.unchecked_set_at(cell, value);
    }

    /// Whether `value` may be placed in the cell visited at logical position
    /// `pos`, as far as the three groups are concerned.
    pub fn can_place(&mut self, pos: usize, value: u8) -> (b: bool)
        requires
            old(self).wf(),
            pos < 81,
            1 <= value <= 9,
        ensures
            *final(self) == *old(self),
            b == !digit_excluded(old(self).cells(), old(self).order()[pos as int] as int, value),
    {
        let cell = self.constraint_order[pos] as usize;
        self.can_place_at(cell, value)
    }

    /// For the cell visited at logical position `pos`, a 16-wide lane array
    /// holding `d` in lane `d` for every digit 1..=9 that the cell's groups
    /// do not exclude, and 0 in every other lane.
    pub fn can_place_what(&mut self, pos: usize) -> (lanes: [u8; 16])
        requires
            old(self).wf(),
            pos < 81,
        ensures
            *final(self) == *old(self),
            forall|d: int|
                0 <= d < 16 ==> #[trigger] lanes@[d] == (if 1 <= d <= 9 && !digit_excluded(
                    old(self).cells(),
                    old(self).order()[pos as int] as int,
                    d as u8,
                ) {
                    d as u8
                } else {
                    0u8
                }),
    {
        let cell = self.constraint_order[pos] as usize;
        let mut lanes: [u8; 16] = [0u8; 16];
        let mut d: usize = 1;
        while d <= 9
            invariant
                self.wf(),
                *self == *old(self),
                cell == self.order()[pos as int] as int,
                cell < 81,
                pos < 81,
                1 <= d <= 10,
                lanes@.len() == 16,
                forall|k: int|
                    0 <= k < d ==> #[trigger] lanes@[k] == (if 1 <= k <= 9 && !digit_excluded(
                        self.cells(),
                        cell as int,
                        k as u8,
                    ) {
                        k as u8
                    } else {
                        0u8
                    }),
                forall|k: int| d <= k < 16 ==> #[trigger] lanes@[k] == 0u8,
            decreases 10 - d,
        {
            if self.can_place_at(cell, d as u8) {
                lanes[d] = d as u8;
            }
            d += 1;
        }
        lanes
    }

    /// Empty the cell visited at logical position `pos`, releasing its digit
    /// in the three flag tables.
    pub fn erase(&mut self, pos: usize)
        requires
            old(self).wf(),
            pos < 81,
        ensures
            final(self).wf(),
            final(self).order() == old(self).order(),
            final(self).cells() == old(self).cells().update(
                old(self).order()[pos as int] as int,
                0u8,
            ),
    {
        let cell = self.constraint_order[pos] as usize;
        self.clear_at(cell);
    }

    /// Rebuild the visit order from scratch: pair every grid position with
    /// its current constraint level and sort by level, most constrained
    /// first.  Ties fall in no promised order.
    pub fn update_constraint_order(&mut self)
        requires
            old(self).wf(),
        ensures
            final(self).wf(),
            final(self).order_sorted(),
            final(self).cells() == old(self).cells(),
            final(self).levels() == old(self).levels(),
    {
        let ghost m = self.matrix@;
        let ghost lv = self.constraint_level@;
        // Start from the identity order, then select the most constrained
        // remaining cell for each slot in turn.
        let mut k: usize = 0;
        while k < 81
            invariant
                k <= 81,
                self.cells_ok(),
                self.tables_ok(),
                group_distinct(self.matrix@),
                self.levels_ok(),
                self.matrix@ == m,
                self.constraint_level@ == lv,
                self.constraint_order@.len() == 81,
                forall|t: int| 0 <= t < k ==> #[trigger] self.constraint_order@[t] == t as u8,
            decreases 81 - k,
        {
            self.constraint_order[k] = k as u8;
            k += 1;
        }
        let mut i: usize = 0;
        while i < 81
            invariant
                i <= 81,
                self.cells_ok(),
                self.tables_ok(),
                group_distinct(self.matrix@),
                self.levels_ok(),
                self.matrix@ == m,
                self.constraint_level@ == lv,
                self.constraint_order@.len() == 81,
                forall|t: int| 0 <= t < 81 ==> #[trigger] self.constraint_order@[t] < 81,
                forall|x: int, y: int|
                    0 <= x < 81 && 0 <= y < 81 && x != y ==> self.constraint_order@[x]
                        != self.constraint_order@[y],
                forall|x: int, y: int|
                    0 <= x < y < i ==> lv[self.constraint_order@[x] as int]
                        >= lv[self.constraint_order@[y] as int],
                forall|x: int, y: int|
                    0 <= x < i <= y < 81 ==> lv[self.constraint_order@[x] as int]
                        >= lv[self.constraint_order@[y] as int],
            decreases 81 - i,
        {
            let mut best: usize = i;
            let mut j: usize = i + 1;
            while j < 81
                invariant
                    i < 81,
                    i <= best < j <= 81,
                    self.constraint_level@ == lv,
                    self.constraint_order@.len() == 81,
                    forall|t: int| 0 <= t < 81 ==> #[trigger] self.constraint_order@[t] < 81,
                    forall|t: int|
                        i <= t < j ==> lv[self.constraint_order@[t] as int]
                            <= lv[self.constraint_order@[best as int] as int],
                decreases 81 - j,
            {
                let cand = self.constraint_order[j] as usize;
                let cur = self.constraint_order[best] as usize;
                if self.constraint_level[cand] > self.constraint_level[cur] {
                    best = j;
                }
                j += 1;
            }
            let a = self.constraint_order[i];
            let b = self.constraint_order[best];
            self.constraint_order[i] = b;
            self.constraint_order[best] = a;
            i += 1;
        }
        proof {
            assert(order_is_perm(self.constraint_order@));
            assert forall|x: int, y: int| 0 <= x < y < 81 implies level_of(
                self.matrix@,
                self.constraint_order@[x] as int,
            ) >= level_of(self.matrix@, self.constraint_order@[y] as int) by {
                assert(lv[self.constraint_order@[x] as int] == level_of(
                    m,
                    self.constraint_order@[x] as int,
                ));
                assert(lv[self.constraint_order@[y] as int] == level_of(
                    m,
                    self.constraint_order@[y] as int,
                ));
            }
        }
    }

}

// ---------------------------------------------------------------------------
// Lemmas about how one cell update moves the model.
// ---------------------------------------------------------------------------

/// The three membership predicates agree on two boards that agree on every
/// cell of `p`'s groups.
proof fn lemma_excluded_agrees(a: Seq<u8>, b: Seq<u8>, p: int, dd: u8)
    requires
        a.len() == 81,
        b.len() == 81,
        0 <= p < 81,
        forall|q: int| 0 <= q < 81 && same_group(p, q) ==> a[q] == b[q],
    ensures
        digit_excluded(a, p, dd) == digit_excluded(b, p, dd),
{
    assert(digit_in_row(a, row_of(p), dd) ==> digit_in_row(b, row_of(p), dd)) by {
        if digit_in_row(a, row_of(p), dd) {
            let c = choose|c: int| 0 <= c < 81 && row_of(c) == row_of(p) && a[c] == dd;
            assert(same_group(p, c));
            assert(0 <= c < 81 && row_of(c) == row_of(p) && b[c] == dd);
        }
    }
    assert(digit_in_row(b, row_of(p), dd) ==> digit_in_row(a, row_of(p), dd)) by {
        if digit_in_row(b, row_of(p), dd) {
            let c = choose|c: int| 0 <= c < 81 && row_of(c) == row_of(p) && b[c] == dd;
            assert(same_group(p, c));
            assert(0 <= c < 81 && row_of(c) == row_of(p) && a[c] == dd);
        }
    }
    assert(digit_in_col(a, col_of(p), dd) ==> digit_in_col(b, col_of(p), dd)) by {
        if digit_in_col(a, col_of(p), dd) {
            let c = choose|c: int| 0 <= c < 81 && col_of(c) == col_of(p) && a[c] == dd;
            assert(same_group(p, c));
            assert(0 <= c < 81 && col_of(c) == col_of(p) && b[c] == dd);
        }
    }
    assert(digit_in_col(b, col_of(p), dd) ==> digit_in_col(a, col_of(p), dd)) by {
        if digit_in_col(b, col_of(p), dd) {
            let c = choose|c: int| 0 <= c < 81 && col_of(c) == col_of(p) && b[c] == dd;
            assert(same_group(p, c));
            assert(0 <= c < 81 && col_of(c) == col_of(p) && a[c] == dd);
        }
    }
    assert(digit_in_sq(a, sq_of(p), dd) ==> digit_in_sq(b, sq_of(p), dd)) by {
        if digit_in_sq(a, sq_of(p), dd) {
            let c = choose|c: int| 0 <= c < 81 && sq_of(c) == sq_of(p) && a[c] == dd;
            assert(same_group(p, c));
            assert(0 <= c < 81 && sq_of(c) == sq_of(p) && b[c] == dd);
        }
    }
    assert(digit_in_sq(b, sq_of(p), dd) ==> digit_in_sq(a, sq_of(p), dd)) by {
        if digit_in_sq(b, sq_of(p), dd) {
            let c = choose|c: int| 0 <= c < 81 && sq_of(c) == sq_of(p) && b[c] == dd;
            assert(same_group(p, c));
            assert(0 <= c < 81 && sq_of(c) == sq_of(p) && a[c] == dd);
        }
    }
}

/// The exclusion counts agree on two boards that agree on every cell of
/// `p`'s groups.
proof fn lemma_count_agrees(a: Seq<u8>, b: Seq<u8>, p: int, d: int)
    requires
        a.len() == 81,
        b.len() == 81,
        0 <= p < 81,
        forall|q: int| 0 <= q < 81 && same_group(p, q) ==> a[q] == b[q],
    ensures
        excluded_count_up_to(a, p, d) == excluded_count_up_to(b, p, d),
    decreases d,
{
    if d > 0 {
        lemma_excluded_agrees(a, b, p, d as u8);
        lemma_count_agrees(a, b, p, d - 1);
    }
}

/// A cell update does not move the level of a cell in none of its groups.
proof fn lemma_level_unchanged(a: Seq<u8>, b: Seq<u8>, p: int)
    requires
        a.len() == 81,
        b.len() == 81,
        0 <= p < 81,
        forall|q: int| 0 <= q < 81 && same_group(p, q) ==> a[q] == b[q],
    ensures
        level_of(a, p) == level_of(b, p),
{
    assert(same_group(p, p));
    lemma_count_agrees(a, b, p, 9);
}

/// How row membership moves when an empty cell takes digit `v`.
proof fn lemma_in_row_after_set(a: Seq<u8>, pos: int, v: u8, g: int, d: u8)
    requires
        a.len() == 81,
        0 <= pos < 81,
        a[pos] == 0,
        1 <= v <= 9,
        d != 0,
    ensures
        digit_in_row(a.update(pos, v), g, d) == (digit_in_row(a, g, d) || (g == row_of(pos) && d
            == v)),
{
    let b = a.update(pos, v);
    if g == row_of(pos) && d == v {
        assert(0 <= pos < 81 && row_of(pos) == g && b[pos] == d);
    }
    if digit_in_row(a, g, d) {
        let c = choose|c: int| 0 <= c < 81 && row_of(c) == g && a[c] == d;
        assert(c != pos);
        assert(0 <= c < 81 && row_of(c) == g && b[c] == d);
    }
    if digit_in_row(b, g, d) && !(g == row_of(pos) && d == v) {
        let c = choose|c: int| 0 <= c < 81 && row_of(c) == g && b[c] == d;
        assert(c != pos);
        assert(0 <= c < 81 && row_of(c) == g && a[c] == d);
    }
}

/// How column membership moves when an empty cell takes digit `v`.
proof fn lemma_in_col_after_set(a: Seq<u8>, pos: int, v: u8, g: int, d: u8)
    requires
        a.len() == 81,
        0 <= pos < 81,
        a[pos] == 0,
        1 <= v <= 9,
        d != 0,
    ensures
        digit_in_col(a.update(pos, v), g, d) == (digit_in_col(a, g, d) || (g == col_of(pos) && d
            == v)),
{
    let b = a.update(pos, v);
    if g == col_of(pos) && d == v {
        assert(0 <= pos < 81 && col_of(pos) == g && b[pos] == d);
    }
    if digit_in_col(a, g, d) {
        let c = choose|c: int| 0 <= c < 81 && col_of(c) == g && a[c] == d;
        assert(c != pos);
        assert(0 <= c < 81 && col_of(c) == g && b[c] == d);
    }
    if digit_in_col(b, g, d) && !(g == col_of(pos) && d == v) {
        let c = choose|c: int| 0 <= c < 81 && col_of(c) == g && b[c] == d;
        assert(c != pos);
        assert(0 <= c < 81 && col_of(c) == g && a[c] == d);
    }
}

/// How box membership moves when an empty cell takes digit `v`.
proof fn lemma_in_sq_after_set(a: Seq<u8>, pos: int, v: u8, g: int, d: u8)
    requires
        a.len() == 81,
        0 <= pos < 81,
        a[pos] == 0,
        1 <= v <= 9,
        d != 0,
    ensures
        digit_in_sq(a.update(pos, v), g, d) == (digit_in_sq(a, g, d) || (g == sq_of(pos) && d
            == v)),
{
    let b = a.update(pos, v);
    if g == sq_of(pos) && d == v {
        assert(0 <= pos < 81 && sq_of(pos) == g && b[pos] == d);
    }
    if digit_in_sq(a, g, d) {
        let c = choose|c: int| 0 <= c < 81 && sq_of(c) == g && a[c] == d;
        assert(c != pos);
        assert(0 <= c < 81 && sq_of(c) == g && b[c] == d);
    }
    if digit_in_sq(b, g, d) && !(g == sq_of(pos) && d == v) {
        let c = choose|c: int| 0 <= c < 81 && sq_of(c) == g && b[c] == d;
        assert(c != pos);
        assert(0 <= c < 81 && sq_of(c) == g && a[c] == d);
    }
}

/// How row membership moves when a filled cell of a well-formed board is
/// cleared.
proof fn lemma_in_row_after_clear(a: Seq<u8>, pos: int, g: int, d: u8)
    requires
        a.len() == 81,
        0 <= pos < 81,
        a[pos] != 0,
        group_distinct(a),
        d != 0,
    ensures
        digit_in_row(a.update(pos, 0), g, d) == (digit_in_row(a, g, d) && !(g == row_of(pos) && d
            == a[pos])),
{
    let b = a.update(pos, 0);
    if g == row_of(pos) && d == a[pos] {
        if digit_in_row(b, g, d) {
            let c = choose|c: int| 0 <= c < 81 && row_of(c) == g && b[c] == d;
            assert(c != pos);
            assert(same_group(pos, c));
            assert(a[c] == a[pos]);
            assert(false);
        }
    } else {
        if digit_in_row(a, g, d) {
            let c = choose|c: int| 0 <= c < 81 && row_of(c) == g && a[c] == d;
            assert(c != pos);
            assert(0 <= c < 81 && row_of(c) == g && b[c] == d);
        }
        if digit_in_row(b, g, d) {
            let c = choose|c: int| 0 <= c < 81 && row_of(c) == g && b[c] == d;
            assert(c != pos);
            assert(0 <= c < 81 && row_of(c) == g && a[c] == d);
        }
    }
}

/// How column membership moves when a filled cell of a well-formed board is
/// cleared.
proof fn lemma_in_col_after_clear(a: Seq<u8>, pos: int, g: int, d: u8)
    requires
        a.len() == 81,
        0 <= pos < 81,
        a[pos] != 0,
        group_distinct(a),
        d != 0,
    ensures
        digit_in_col(a.update(pos, 0), g, d) == (digit_in_col(a, g, d) && !(g == col_of(pos) && d
            == a[pos])),
{
    let b = a.update(pos, 0);
    if g == col_of(pos) && d == a[pos] {
        if digit_in_col(b, g, d) {
            let c = choose|c: int| 0 <= c < 81 && col_of(c) == g && b[c] == d;
            assert(c != pos);
            assert(same_group(pos, c));
            assert(a[c] == a[pos]);
            assert(false);
        }
    } else {
        if digit_in_col(a, g, d) {
            let c = choose|c: int| 0 <= c < 81 && col_of(c) == g && a[c] == d;
            assert(c != pos);
            assert(0 <= c < 81 && col_of(c) == g && b[c] == d);
        }
        if digit_in_col(b, g, d) {
            let c = choose|c: int| 0 <= c < 81 && col_of(c) == g && b[c] == d;
            assert(c != pos);
            assert(0 <= c < 81 && col_of(c) == g && a[c] == d);
        }
    }
}

/// How box membership moves when a filled cell of a well-formed board is
/// cleared.
proof fn lemma_in_sq_after_clear(a: Seq<u8>, pos: int, g: int, d: u8)
    requires
        a.len() == 81,
        0 <= pos < 81,
        a[pos] != 0,
        group_distinct(a),
        d != 0,
    ensures
        digit_in_sq(a.update(pos, 0), g, d) == (digit_in_sq(a, g, d) && !(g == sq_of(pos) && d
            == a[pos])),
{
    let b = a.update(pos, 0);
    if g == sq_of(pos) && d == a[pos] {
        if digit_in_sq(b, g, d) {
            let c = choose|c: int| 0 <= c < 81 && sq_of(c) == g && b[c] == d;
            assert(c != pos);
            assert(same_group(pos, c));
            assert(a[c] == a[pos]);
            assert(false);
        }
    } else {
        if digit_in_sq(a, g, d) {
            let c = choose|c: int| 0 <= c < 81 && sq_of(c) == g && a[c] == d;
            assert(c != pos);
            assert(0 <= c < 81 && sq_of(c) == g && b[c] == d);
        }
        if digit_in_sq(b, g, d) {
            let c = choose|c: int| 0 <= c < 81 && sq_of(c) == g && b[c] == d;
            assert(c != pos);
            assert(0 <= c < 81 && sq_of(c) == g && a[c] == d);
        }
    }
}

// ---------------------------------------------------------------------------
// The board's laws.
// ---------------------------------------------------------------------------

/// What the invariant gives every caller: 81 cells in range and a visit
/// order that is a permutation of the 81 grid positions.
pub proof fn lemma_wf_board(b: &Sudoku)
    requires
        b.wf(),
    ensures
        b.cells().len() == 81,
        forall|c: int| 0 <= c < 81 ==> #[trigger] b.cells()[c] <= 9,
        order_is_perm(b.order()),
{
}

/// Legality: on a well-formed board a placed digit occurs nowhere else in
/// its row, column or box, so a digit that `set` has just placed is unique
/// in all three of its groups.
pub proof fn lemma_placed_digit_unique(b: &Sudoku, p: int, q: int)
    requires
        b.wf(),
        0 <= p < 81,
        0 <= q < 81,
        p != q,
        same_group(p, q),
        b.cells()[p] != 0,
    ensures
        b.cells()[q] != b.cells()[p],
{
    assert(b.cells()[p] != b.cells()[q]);
}

/// Round trip: placing a legal digit in an empty cell and erasing it again
/// restores the cells exactly, and the digit is again not excluded there.
pub proof fn lemma_set_erase_round_trip(cells: Seq<u8>, pos: int, d: u8)
    requires
        cells.len() == 81,
        0 <= pos < 81,
        cells[pos] == 0,
        1 <= d <= 9,
        !digit_excluded(cells, pos, d),
    ensures
        cells.update(pos, d).update(pos, 0u8) == cells,
        !digit_excluded(cells.update(pos, d).update(pos, 0u8), pos, d),
{
    assert(cells.update(pos, d).update(pos, 0u8) =~= cells);
}

/// Every grid position occurs in a valid visit order.
pub proof fn lemma_order_covers(ord: Seq<u8>, c: int)
    requires
        order_is_perm(ord),
        0 <= c < 81,
    ensures
        exists|j: int| 0 <= j < 81 && ord[j] == c,
{
    let m = ord.map_values(|x: u8| x as int);
    assert(m.len() == 81);
    assert(m.no_duplicates()) by {
        assert forall|i: int, j: int|
            0 <= i < m.len() && 0 <= j < m.len() && i != j implies m[i] != m[j] by {
            assert(ord[i] != ord[j]);
        }
    }
    m.unique_seq_to_set();
    assert(m.to_set().subset_of(vstd::set_lib::set_int_range(0, 81))) by {
        assert forall|v: int| m.to_set().contains(v) implies vstd::set_lib::set_int_range(
            0,
            81,
        ).contains(v) by {
            let j = choose|j: int| 0 <= j < m.len() && m[j] == v;
            assert(ord[j] < 81);
        }
    }
    vstd::set_lib::lemma_int_range(0, 81);
    vstd::set_lib::lemma_subset_equality(m.to_set(), vstd::set_lib::set_int_range(0, 81));
    assert(vstd::set_lib::set_int_range(0, 81).contains(c));
    assert(m.to_set().contains(c));
    let j = choose|j: int| 0 <= j < m.len() && m[j] == c;
    assert(0 <= j < 81 && ord[j] == c);
}

/// A well-formed board with no empty cell is a complete legal solution.
pub proof fn lemma_all_filled_solved(b: &Sudoku)
    requires
        b.wf(),
        forall|c: int| 0 <= c < 81 ==> #[trigger] b.cells()[c] != 0,
    ensures
        solved_cells(b.cells()),
{
}

/// A well-formed board filled at every visit position is filled everywhere.
pub proof fn lemma_prefix_filled_all_filled(b: &Sudoku)
    requires
        b.wf(),
        forall|j: int| 0 <= j < 81 ==> b.cells()[#[trigger] b.order()[j] as int] != 0,
    ensures
        forall|c: int| 0 <= c < 81 ==> #[trigger] b.cells()[c] != 0,
{
    assert forall|c: int| 0 <= c < 81 implies #[trigger] b.cells()[c] != 0 by {
        lemma_order_covers(b.order(), c);
        let j = choose|j: int| 0 <= j < 81 && b.order()[j] == c;
        assert(b.cells()[b.order()[j] as int] != 0);
    }
}

/// Order validity: a filled cell's level is 0, and in a freshly sorted
/// visit order it stands at or after every cell with a positive level.
pub proof fn lemma_filled_cells_sort_last(b: &Sudoku, i: int, j: int)
    requires
        b.wf(),
        b.order_sorted(),
        0 <= i < 81,
        0 <= j < 81,
        b.cells()[b.order()[i] as int] != 0,
        level_of(b.cells(), b.order()[j] as int) > 0,
    ensures
        level_of(b.cells(), b.order()[i] as int) == 0,
        j < i,
{
    assert(level_of(b.cells(), b.order()[i] as int) == 0);
    if j > i {
        assert(level_of(b.cells(), b.order()[i] as int) >= level_of(
            b.cells(),
            b.order()[j] as int,
        ));
        assert(false);
    }
}

/// For a puzzle with exactly one completion, any complete legal board a
/// search reports is that completion: solvers promise a solved extension,
/// and uniqueness leaves only one.
pub proof fn lemma_unique_solution(cells: Seq<u8>, sol: Seq<u8>, s: Seq<u8>)
    requires
        forall|t: Seq<u8>| solved_cells(t) && extends_cells(cells, t) ==> t == sol,
        solved_cells(s),
        extends_cells(cells, s),
    ensures
        s == sol,
{
}

/// One excluded digit makes the exclusion count positive.
proof fn lemma_count_positive(cells: Seq<u8>, pos: int, d: int, dd: int)
    requires
        1 <= dd <= d,
        digit_excluded(cells, pos, dd as u8),
    ensures
        excluded_count_up_to(cells, pos, d) >= 1,
    decreases d,
{
    if d > dd {
        lemma_count_positive(cells, pos, d - 1, dd);
    }
}

/// On a freshly sorted board whose first visited cell is filled, every cell
/// is filled: were any cell empty, some cell would carry a positive level
/// and would have been visited before the filled one.
pub proof fn lemma_sorted_filled_first_complete(b: &Sudoku)
    requires
        b.wf(),
        b.order_sorted(),
        b.cells()[b.order()[0] as int] != 0,
    ensures
        forall|c: int| 0 <= c < 81 ==> #[trigger] b.cells()[c] != 0,
{
    let cells = b.cells();
    let ord = b.order();
    let f = ord[0] as int;
    assert(level_of(cells, f) == 0);
    assert forall|c: int| 0 <= c < 81 implies level_of(cells, c) == 0 by {
        lemma_order_covers(ord, c);
        let j = choose|j: int| 0 <= j < 81 && ord[j] == c;
        if j > 0 {
            assert(level_of(cells, ord[0] as int) >= level_of(cells, ord[j] as int));
        }
    }
    assert forall|e: int| 0 <= e < 81 implies #[trigger] cells[e] != 0 by {
        if cells[e] == 0 {
            let x = row_of(f) * 9 + col_of(e);
            assert(0 <= x < 81);
            assert(row_of(x) == row_of(f));
            assert(col_of(x) == col_of(e));
            if cells[x] != 0 {
                assert(digit_in_col(cells, col_of(e), cells[x]));
                assert(digit_excluded(cells, e, cells[x]));
                assert(1 <= cells[x] <= 9);
                lemma_count_positive(cells, e, 9, cells[x] as int);
                assert(level_of(cells, e) >= 1);
                assert(false);
            } else {
                assert(digit_in_row(cells, row_of(x), cells[f]));
                assert(digit_excluded(cells, x, cells[f]));
                assert(1 <= cells[f] <= 9);
                lemma_count_positive(cells, x, 9, cells[f] as int);
                assert(level_of(cells, x) >= 1);
                assert(false);
            }
        }
    }
}

/// Digits none of which are excluded contribute nothing to the count.
proof fn lemma_count_of_none(cells: Seq<u8>, pos: int, d: int)
    requires
        forall|dd: int| 1 <= dd <= d ==> !(#[trigger] digit_excluded(cells, pos, dd as u8)),
    ensures
        excluded_count_up_to(cells, pos, d) == 0,
    decreases d,
{
    if d > 0 {
        lemma_count_of_none(cells, pos, d - 1);
    }
}

impl Sudoku {
    /// Build a board from 81 raw cell values: 0 for an empty cell, 1..=9 for
    /// a given digit.  Fails when the count or a value is out of range, or
    /// when two given digits collide inside a row, a column or a box.
    pub fn from_cells(values: Vec<u8>) -> (r: Result<Sudoku, GenericError>)
        ensures
            r is Ok <==> (values@.len() == 81 && (forall|c: int|
                0 <= c < 81 ==> #[trigger] values@[c] <= 9) && group_distinct(values@)),
            r matches Ok(b) ==> b.wf() && b.order_sorted() && b.cells() == values@,
    {
        if values.len() != 81 {
            return "a board needs exactly 81 cell values".to_owned().into_error();
        }
        let mut s = Sudoku {
            matrix: [0u8; 81],
            constraint_order: [0u8; 81],
            constraint_level: [0u8; 81],
            row_constraint_table: [0u8; 144],
            col_constraint_table: [0u8; 144],
            sq_constraint_table: [0u8; 144],
        };
        let mut k: usize = 0;
        while k < 81
            invariant
                k <= 81,
                s.matrix@ =~= Seq::new(81nat, |c: int| 0u8),
                s.constraint_level@ =~= Seq::new(81nat, |c: int| 0u8),
                s.row_constraint_table@ =~= Seq::new(144nat, |c: int| 0u8),
                s.col_constraint_table@ =~= Seq::new(144nat, |c: int| 0u8),
                s.sq_constraint_table@ =~= Seq::new(144nat, |c: int| 0u8),
                forall|t: int| 0 <= t < k ==> #[trigger] s.constraint_order@[t] == t as u8,
            decreases 81 - k,
        {
            s.constraint_order[k] = k as u8;
            k += 1;
        }
        proof {
            // The empty board satisfies every part of the invariant.
            assert forall|g: int, d: u8| !digit_in_row(s.matrix@, g, d) || d == 0 by {
                if digit_in_row(s.matrix@, g, d) && d != 0 {
                    let c = choose|c: int| 0 <= c < 81 && row_of(c) == g && s.matrix@[c] == d;
                    assert(false);
                }
            }
            assert forall|g: int, d: u8| !digit_in_col(s.matrix@, g, d) || d == 0 by {
                if digit_in_col(s.matrix@, g, d) && d != 0 {
                    let c = choose|c: int| 0 <= c < 81 && col_of(c) == g && s.matrix@[c] == d;
                    assert(false);
                }
            }
            assert forall|g: int, d: u8| !digit_in_sq(s.matrix@, g, d) || d == 0 by {
                if digit_in_sq(s.matrix@, g, d) && d != 0 {
                    let c = choose|c: int| 0 <= c < 81 && sq_of(c) == g && s.matrix@[c] == d;
                    assert(false);
                }
            }
            assert(s.tables_ok());
            assert forall|c: int| 0 <= c < 81 implies s.constraint_level@[c] == level_of(
                s.matrix@,
                c,
            ) by {
                assert forall|dd: int| 1 <= dd <= 9 implies !(#[trigger] digit_excluded(
                    s.matrix@,
                    c,
                    dd as u8,
                )) by {}
                lemma_count_of_none(s.matrix@, c, 9);
            }
            assert(s.levels_ok());
            assert(order_is_perm(s.constraint_order@));
        }
        let mut idx: usize = 0;
        while idx < 81
            invariant
                idx <= 81,
                values@.len() == 81,
                s.cells_ok(),
                s.tables_ok(),
                group_distinct(s.matrix@),
                s.levels_ok(),
                order_is_perm(s.constraint_order@),
                forall|c: int| 0 <= c < idx ==> s.matrix@[c] == #[trigger] values@[c],
                forall|c: int| idx <= c < 81 ==> s.matrix@[c] == 0,
                forall|c: int| 0 <= c < idx ==> #[trigger] values@[c] <= 9,
            decreases 81 - idx,
        {
            let v = values[idx];
            if v > 9 {
                return "a cell value must be 0 for empty or a digit 1 through 9"
                    .to_owned()
                    .into_error();
            }
            if v != 0 {
                if !s.can_place_at(idx, v) {
                    proof {
                        // A collision among the given digits: name the two
                        // cells so the failure case of the contract follows.
                        let p = idx as int;
                        if digit_in_row(s.matrix@, row_of(p), v) {
                            let c = choose|c: int|
                                0 <= c < 81 && row_of(c) == row_of(p) && s.matrix@[c] == v;
                            assert(c < p);
                            assert(same_group(c, p));
                            assert(values@[c] == v && values@[p] == v && values@[c] != 0);
                            assert(!group_distinct(values@));
                        } else if digit_in_col(s.matrix@, col_of(p), v) {
                            let c = choose|c: int|
                                0 <= c < 81 && col_of(c) == col_of(p) && s.matrix@[c] == v;
                            assert(c < p);
                            assert(same_group(c, p));
                            assert(values@[c] == v && values@[p] == v && values@[c] != 0);
                            assert(!group_distinct(values@));
                        } else {
                            let c = choose|c: int|
                                0 <= c < 81 && sq_of(c) == sq_of(p) && s.matrix@[c] == v;
                            assert(c < p);
                            assert(same_group(c, p));
                            assert(values@[c] == v && values@[p] == v && values@[c] != 0);
                            assert(!group_distinct(values@));
                        }
                    }
                    return "two given digits collide inside a row, a column or a box"
                        .to_owned()
                        .into_error();
                }
                s.unchecked_set_at(idx, v);
            }
            idx += 1;
        }
        proof {
            assert(s.matrix@ =~= values@);
        }
        s.update_constraint_order();
        Ok(s)
    }

    /// Build a board from puzzle text: exactly 81 whitespace-separated
    /// tokens, each a digit 1..=9 or any other word for an empty cell.
    pub fn from_str(s: &str) -> (r: Result<Sudoku, GenericError>)
        ensures
            r is Ok <==> (givens_of(s.spec_bytes()).len() == 81 && group_distinct(
                givens_of(s.spec_bytes()),
            )),
            r matches Ok(b) ==> b.wf() && b.order_sorted() && b.cells() == givens_of(
                s.spec_bytes(),
            ),
    {
        let bytes = s.as_bytes();
        let values = match parse_values(bytes) {
            Ok(v) => v,
            Err(e) => {
                return Err(e);
            },
        };
        proof {
            lemma_givens_le9(bytes@, Option::None);
        }
        Sudoku::from_cells(values)
    }

    /// An independent copy of this board for a new search branch.  The copy
    /// recomputes its visit order from scratch, so that copy and source may
    /// diverge freely afterwards.
    pub fn duplicate(&self) -> (r: Sudoku)
        requires
            self.wf(),
        ensures
            r.wf(),
            r.order_sorted(),
            r.cells() == self.cells(),
    {
        let mut r = Sudoku {
            matrix: self.matrix,
            constraint_order: self.constraint_order,
            constraint_level: self.constraint_level,
            row_constraint_table: self.row_constraint_table,
            col_constraint_table: self.col_constraint_table,
            sq_constraint_table: self.sq_constraint_table,
        };
        r.update_constraint_order();
        r
    }

    /// The grid position of a most constrained cell: the first cell whose
    /// level says only one digit is left, if any, else the first cell of
    /// maximal level.
    pub fn get_max_constraint_pos(&self) -> (r: usize)
        requires
            self.wf(),
        ensures
            r < 81,
            (exists|k: int| 0 <= k < 81 && level_of(self.cells(), k) == 8) ==> (level_of(
                self.cells(),
                r as int,
            ) == 8 && forall|j: int| 0 <= j < r ==> level_of(self.cells(), j) != 8),
            (forall|k: int| 0 <= k < 81 ==> level_of(self.cells(), k) != 8) ==> ((forall|j: int|
                0 <= j < 81 ==> level_of(self.cells(), j) <= level_of(self.cells(), r as int))
                && (forall|j: int| 0 <= j < r ==> level_of(self.cells(), j) < level_of(
                self.cells(),
                r as int,
            ))),
    {
        let mut index: usize = 0;
        let mut max: u8 = 0;
        let mut k: usize = 0;
        while k < 81
            invariant
                self.wf(),
                k <= 81,
                index < 81,
                forall|j: int| 0 <= j < k ==> level_of(self.cells(), j) != 8,
                forall|j: int| 0 <= j < k ==> level_of(self.cells(), j) <= max,
                forall|j: int| 0 <= j < index ==> level_of(self.cells(), j) < max,
                max > 0 ==> index < k && level_of(self.cells(), index as int) == max,
                max == 0 ==> index == 0,
            decreases 81 - k,
        {
            let level = self.constraint_level[k];
            if level == 8 {
                return k;
            } else if level > max {
                index = k;
                max = level;
            }
            k += 1;
        }
        index
    }

    /// The grid as printable text: nine lines of nine space-separated cell
    /// values, 0 standing for an empty cell.
    pub fn render(&self) -> (out: String)
        requires
            self.wf(),
        ensures
            out@ == render_grid(self.cells()),
    {
        let ghost grid = render_grid(self.cells());
        let mut out = String::new();
        let mut row: usize = 0;
        while row < 9
            invariant
                self.wf(),
                grid == render_grid(self.cells()),
                row <= 9,
                out@ == grid.take(row * 19),
            decreases 9 - row,
        {
            let mut col: usize = 0;
            while col < 9
                invariant
                    self.wf(),
                    grid == render_grid(self.cells()),
                    row < 9,
                    col <= 9,
                    out@ == grid.take(row * 19 + col * 2),
                decreases 9 - col,
            {
                let v = self.get_row_col(row, col);
                let s = digit_str(v);
                out.append(s);
                proof {
                    assert(out@ =~= grid.take(row * 19 + (col + 1) * 2));
                }
                col += 1;
            }
            out.append("\n");
            proof {
                reveal_strlit("\n");
                assert(out@ =~= grid.take((row + 1) * 19));
            }
            row += 1;
        }
        proof {
            assert(grid.take(171int) =~= grid);
        }
        out
    }

    /// Whether the board is completely filled.  On a freshly sorted visit
    /// order one read decides: empty cells sort before filled ones.
    pub fn is_complete(&self) -> (b: bool)
        requires
            self.wf(),
            self.order_sorted(),
        ensures
            b == (forall|c: int| 0 <= c < 81 ==> #[trigger] self.cells()[c] != 0),
    {
        let b = self.has_value(0);
        proof {
            if b {
                lemma_sorted_filled_first_complete(self);
            } else {
                assert(self.cells()[self.order()[0] as int] == 0);
            }
        }
        b
    }

    /// One fresh board per digit that the cell visited first may legally
    /// take: the branches a search may explore from here.  The first visited
    /// cell must still be empty.
    pub fn successors(&self) -> (branches: Vec<Sudoku>)
        requires
            self.wf(),
            self.cells()[self.order()[0] as int] == 0,
        ensures
            forall|i: int|
                0 <= i < branches@.len() ==> (#[trigger] branches@[i]).wf()
                    && branches@[i].order_sorted() && (exists|d: u8|
                    1 <= d <= 9 && !digit_excluded(self.cells(), self.order()[0] as int, d)
                        && branches@[i].cells() == self.cells().update(
                        self.order()[0] as int,
                        d,
                    )),
            forall|d: u8|
                1 <= d <= 9 && !(#[trigger] digit_excluded(
                    self.cells(),
                    self.order()[0] as int,
                    d,
                )) ==> exists|i: int|
                    0 <= i < branches@.len() && branches@[i].cells() == self.cells().update(
                        self.order()[0] as int,
                        d,
                    ),
            forall|i: int, j: int|
                0 <= i < j < branches@.len() ==> branches@[i].cells()[self.order()[0] as int]
                    < branches@[j].cells()[self.order()[0] as int],
    {
        let cell = self.constraint_order[0] as usize;
        let mut branches: Vec<Sudoku> = Vec::new();
        let mut d: u8 = 1;
        while d <= 9
            invariant
                self.wf(),
                cell == self.order()[0] as int,
                cell < 81,
                self.cells()[cell as int] == 0,
                1 <= d <= 10,
                forall|i: int|
                    0 <= i < branches@.len() ==> (#[trigger] branches@[i]).wf()
                        && branches@[i].order_sorted() && (exists|dd: u8|
                        1 <= dd <= 9 && !digit_excluded(self.cells(), cell as int, dd)
                            && branches@[i].cells() == self.cells().update(cell as int, dd)),
                forall|dd: u8|
                    1 <= dd < d && !(#[trigger] digit_excluded(self.cells(), cell as int, dd))
                        ==> exists|i: int|
                        0 <= i < branches@.len() && branches@[i].cells() == self.cells().update(
                            cell as int,
                            dd,
                        ),
                forall|i: int|
                    0 <= i < branches@.len() ==> 1 <= (#[trigger] branches@[i]).cells()[cell as int]
                        < d,
                forall|i: int, j: int|
                    0 <= i < j < branches@.len() ==> branches@[i].cells()[cell as int]
                        < branches@[j].cells()[cell as int],
            decreases 10 - d,
        {
            if self.can_place_at(cell, d) {
                let mut nb = Sudoku {
                    matrix: self.matrix,
                    constraint_order: self.constraint_order,
                    constraint_level: self.constraint_level,
                    row_constraint_table: self.row_constraint_table,
                    col_constraint_table: self.col_constraint_table,
                    sq_constraint_table: self.sq_constraint_table,
                };
                nb.unchecked_set_at(cell, d);
                nb.update_constraint_order();
                let ghost before = branches@;
                branches.push(nb);
                proof {
                    assert forall|dd: u8|
                        1 <= dd < d + 1 && !(#[trigger] digit_excluded(
                            self.cells(),
                            cell as int,
                            dd,
                        )) implies exists|i: int|
                        0 <= i < branches@.len() && branches@[i].cells() == self.cells().update(
                            cell as int,
                            dd,
                        ) by {
                        if dd == d {
                            assert(branches@[branches@.len() - 1].cells() == self.cells().update(
                                cell as int,
                                dd,
                            ));
                        } else {
                            let i = choose|i: int|
                                0 <= i < before.len() && before[i].cells() == self.cells().update(
                                    cell as int,
                                    dd,
                                );
                            assert(branches@[i].cells() == self.cells().update(cell as int, dd));
                        }
                    }
                }
            }
            d += 1;
        }
        branches
    }
}

/// The two characters a cell prints as: its digit and one space.
fn digit_str(v: u8) -> (s: &'static str)
    requires
        v <= 9,
    ensures
        s@ == seq![digit_char(v), ' '],
{
    proof {
        reveal_strlit("0 ");
        reveal_strlit("1 ");
        reveal_strlit("2 ");
        reveal_strlit("3 ");
        reveal_strlit("4 ");
        reveal_strlit("5 ");
        reveal_strlit("6 ");
        reveal_strlit("7 ");
        reveal_strlit("8 ");
        reveal_strlit("9 ");
    }
    match v {
        0 => "0 ",
        1 => "1 ",
        2 => "2 ",
        3 => "3 ",
        4 => "4 ",
        5 => "5 ",
        6 => "6 ",
        7 => "7 ",
        8 => "8 ",
        _ => "9 ",
    }
}

/// Whether `b` separates tokens.
fn is_sep_byte(b: u8) -> (r: bool)
    ensures
        r == is_sep(b),
{
    b == 9 || b == 10 || b == 11 || b == 12 || b == 13 || b == 32
}

/// Split `bytes` into whitespace-separated tokens and give each token its
/// cell value; fails unless exactly 81 tokens are present.
fn parse_values(bytes: &[u8]) -> (r: Result<Vec<u8>, GenericError>)
    ensures
        r is Ok <==> givens_of(bytes@).len() == 81,
        r matches Ok(v) ==> v@ == givens_of(bytes@),
{
    let mut vals: Vec<u8> = Vec::new();
    let mut i: usize = 0;
    let mut in_tok: bool = false;
    let mut tok_len: usize = 0;
    let mut tok_first: u8 = 0;
    let ghost mut cur: Seq<u8> = Seq::empty();
    proof {
        assert(bytes@.skip(0) =~= bytes@);
        assert(Seq::<u8>::empty() + givens_scan(bytes@, Option::<Seq<u8>>::None) =~= givens_scan(
            bytes@,
            Option::<Seq<u8>>::None,
        ));
    }
    while i < bytes.len()
        invariant
            i <= bytes@.len(),
            tok_len <= i,
            in_tok ==> cur.len() == tok_len && cur.len() >= 1 && cur[0] == tok_first,
            givens_of(bytes@) == vals@ + givens_scan(
                bytes@.skip(i as int),
                if in_tok {
                    Option::Some(cur)
                } else {
                    Option::<Seq<u8>>::None
                },
            ),
        decreases bytes@.len() - i,
    {
        let b = bytes[i];
        let ghost rest0 = bytes@.skip(i as int);
        let ghost st0: Option<Seq<u8>> = if in_tok {
            Option::Some(cur)
        } else {
            Option::None
        };
        proof {
            assert(rest0.len() > 0);
            assert(rest0[0] == b);
            assert(rest0.drop_first() =~= bytes@.skip(i + 1));
        }
        if is_sep_byte(b) {
            if in_tok {
                let v = if tok_len == 1 && 0x31 <= tok_first && tok_first <= 0x39 {
                    tok_first - 0x30
                } else {
                    0
                };
                proof {
                    assert(v == token_value(cur));
                    assert(givens_scan(rest0, st0) =~= seq![token_value(cur)] + givens_scan(
                        bytes@.skip(i + 1),
                        Option::None,
                    ));
                    assert(vals@ + givens_scan(rest0, st0) =~= vals@.push(v) + givens_scan(
                        bytes@.skip(i + 1),
                        Option::None,
                    ));
                }
                vals.push(v);
                in_tok = false;
                proof {
                    cur = Seq::empty();
                }
            } else {
                proof {
                    assert(givens_scan(rest0, st0) == givens_scan(
                        bytes@.skip(i + 1),
                        Option::None,
                    ));
                }
            }
        } else {
            if in_tok {
                proof {
                    assert(givens_scan(rest0, st0) == givens_scan(
                        bytes@.skip(i + 1),
                        Option::Some(cur.push(b)),
                    ));
                    cur = cur.push(b);
                }
                tok_len = tok_len + 1;
            } else {
                proof {
                    assert(givens_scan(rest0, st0) == givens_scan(
                        bytes@.skip(i + 1),
                        Option::Some(seq![b]),
                    ));
                    cur = seq![b];
                }
                in_tok = true;
                tok_len = 1;
                tok_first = b;
            }
        }
        i += 1;
    }
    proof {
        assert(bytes@.skip(i as int) =~= Seq::<u8>::empty());
    }
    if in_tok {
        let v = if tok_len == 1 && 0x31 <= tok_first && tok_first <= 0x39 {
            tok_first - 0x30
        } else {
            0
        };
        proof {
            assert(v == token_value(cur));
            assert(givens_of(bytes@) =~= vals@.push(v));
        }
        vals.push(v);
    } else {
        proof {
            assert(givens_of(bytes@) =~= vals@);
        }
    }
    if vals.len() != 81 {
        return "a puzzle needs exactly 81 whitespace-separated entries".to_owned().into_error();
    }
    Ok(vals)
}

// Exec helpers for the group indices.

/// Row of a grid position.
fn row_of_cell(c: usize) -> (r: usize)
    requires
        c < 81,
    ensures
        r == row_of(c as int),
        r < 9,
{
    c / 9
}

/// Column of a grid position.
fn col_of_cell(c: usize) -> (k: usize)
    requires
        c < 81,
    ensures
        k == col_of(c as int),
        k < 9,
{
    c % 9
}

/// Box of a grid position.
fn sq_of_cell(c: usize) -> (s: usize)
    requires
        c < 81,
    ensures
        s == sq_of(c as int),
        s < 9,
{
    3 * (c / 27) + (c % 9) / 3
}

} // verus!
