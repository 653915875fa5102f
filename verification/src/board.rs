//! The puzzle grid: 81 cell values plus the ordered list of free cells.

use vstd::prelude::*;

verus! {

/// A cell coordinate `(x, y)` with `x` the column and `y` the row.
pub type Pos = (usize, usize);

/// Index of cell `(x, y)` in the flat 81-element array (row-major order).
pub open spec fn cell_key(x: int, y: int) -> int {
    y * 9 + x
}

/// Flat index of a coordinate pair.
pub open spec fn pos_key(p: Pos) -> int {
    cell_key(p.0 as int, p.1 as int)
}

/// Both coordinates lie on the 9x9 grid.
pub open spec fn pos_in_range(p: Pos) -> bool {
    p.0 < 9 && p.1 < 9
}

/// A well-formed grid: exactly 81 cells, each holding 0 (blank) or a digit 1-9.
pub open spec fn grid_wf(g: Seq<u8>) -> bool {
    &&& g.len() == 81
    &&& forall|k: int| 0 <= k < 81 ==> g[k] <= 9
}

/// The 9 values of row `y`, in order of increasing `x`.
pub open spec fn row_seq(g: Seq<u8>, y: int) -> Seq<u8> {
    Seq::new(9, |x: int| g[cell_key(x, y)])
}

/// The 9 values of column `x`, in order of increasing `y`.
pub open spec fn col_seq(g: Seq<u8>, x: int) -> Seq<u8> {
    Seq::new(9, |y: int| g[cell_key(x, y)])
}

/// Index of the 3x3 square containing cell `(x, y)`; squares are numbered
/// left to right, top to bottom.
pub open spec fn square_index(x: int, y: int) -> int {
    (y / 3) * 3 + x / 3
}

/// The 9 values of square `s`, scanned row by row within the square.
pub open spec fn square_seq(g: Seq<u8>, s: int) -> Seq<u8> {
    Seq::new(9, |k: int| g[cell_key((s % 3) * 3 + k % 3, (s / 3) * 3 + k / 3)])
}

/// No digit 1-9 appears more than once; blanks (0) never count as duplicates.
pub open spec fn seq_unique(s: Seq<u8>) -> bool {
    forall|p: int, q: int| 0 <= p < q < s.len() && s[p] != 0 ==> s[p] != s[q]
}

/// The row, column and square containing cell `(x, y)` are each free of
/// duplicate digits. This is the local consistency check made after every
/// placement; it says nothing about blanks elsewhere.
pub open spec fn cell_ok(g: Seq<u8>, x: int, y: int) -> bool {
    &&& seq_unique(row_seq(g, y))
    &&& seq_unique(col_seq(g, x))
    &&& seq_unique(square_seq(g, square_index(x, y)))
}

/// Every row, column and square of the grid is free of duplicate digits.
pub open spec fn all_ok(g: Seq<u8>) -> bool {
    forall|i: int|
        #![trigger row_seq(g, i)]
        #![trigger col_seq(g, i)]
        #![trigger square_seq(g, i)]
        0 <= i < 9 ==> seq_unique(row_seq(g, i)) && seq_unique(col_seq(g, i)) && seq_unique(
            square_seq(g, i),
        )
}

/// Number of occurrences of `v` in `s`.
pub open spec fn occ(s: Seq<u8>, v: u8) -> nat
    decreases s.len(),
{
    if s.len() == 0 {
        0
    } else {
        occ(s.drop_last(), v) + (if s.last() == v {
            1nat
        } else {
            0nat
        })
    }
}

/// One puzzle instance: the 81 cell values and the free-cell list.
///
/// `modify` records, in the scan order of the original input, the cells that
/// were blank there; only those cells are ever reassigned by the solver.
pub struct Board {
    pub board: Vec<u8>,
    pub modify: Vec<Pos>,
}

impl Board {
    /// The grid is well-formed and the free-cell list names pairwise distinct
    /// on-grid cells.
    pub open spec fn wf(self) -> bool {
        &&& grid_wf(self.board@)
        &&& forall|j: int| 0 <= j < self.modify@.len() ==> pos_in_range(#[trigger] self.modify@[j])
        &&& forall|j1: int, j2: int|
            0 <= j1 < j2 < self.modify@.len() ==> self.modify@[j1] != self.modify@[j2]
    }

    /// Every free cell is still blank: the state a freshly parsed puzzle is in.
    pub open spec fn free_cells_blank(self) -> bool {
        forall|j: int|
            0 <= j < self.modify@.len() ==> self.board@[pos_key(#[trigger] self.modify@[j])] == 0
    }

    /// Read the digit stored at `(x, y)`.
    pub fn get(&self, x: usize, y: usize) -> (v: u8)
        requires
            self.board@.len() == 81,
            x < 9,
            y < 9,
        ensures
            v == self.board@[cell_key(x as int, y as int)],
    {
        self.board[y * 9 + x]
    }

    /// Overwrite the digit stored at `(x, y)`. No consistency check is made
    /// here; that is the caller's responsibility.
    pub fn set(&mut self, x: usize, y: usize, val: u8)
        requires
            old(self).board@.len() == 81,
            x < 9,
            y < 9,
        ensures
            final(self).board@ == old(self).board@.update(cell_key(x as int, y as int), val),
            final(self).modify == old(self).modify,
    {
        self.board[y * 9 + x] = val;
    }

    /// Borrow the cell named by the `i`-th free-cell entry for mutation.
    pub fn get_modify_nth_mut(&mut self, i: usize) -> (val: &mut u8)
        requires
            old(self).board@.len() == 81,
            i < old(self).modify@.len(),
            pos_in_range(old(self).modify@[i as int]),
        ensures
            *val == old(self).board@[pos_key(old(self).modify@[i as int])],
            final(self).board@ == old(self).board@.update(
                pos_key(old(self).modify@[i as int]),
                *final(val),
            ),
            final(self).modify == old(self).modify,
    {
        let pos = self.modify[i];
        &mut self.board[pos.1 * 9 + pos.0]
    }

    /// The 9 values of row `row_i`, left to right.
    pub fn get_row(&self, row_i: usize) -> (r: Vec<u8>)
        requires
            self.board@.len() == 81,
            row_i < 9,
        ensures
            r@ == row_seq(self.board@, row_i as int),
    {
        let mut row: Vec<u8> = Vec::new();
        let mut x: usize = 0;
        while x < 9
            invariant
                self.board@.len() == 81,
                row_i < 9,
                x <= 9,
                row@.len() == x,
                forall|k: int| 0 <= k < x ==> row@[k] == self.board@[cell_key(k, row_i as int)],
            decreases 9 - x,
        {
            let v = self.get(x, row_i);
            row.push(v);
            x += 1;
        }
        proof {
            assert(row@ =~= row_seq(self.board@, row_i as int));
        }
        row
    }

    /// The 9 values of column `col_i`, top to bottom.
    pub fn get_column(&self, col_i: usize) -> (r: Vec<u8>)
        requires
            self.board@.len() == 81,
            col_i < 9,
        ensures
            r@ == col_seq(self.board@, col_i as int),
    {
        let mut column: Vec<u8> = Vec::new();
        let mut y: usize = 0;
        while y < 9
            invariant
                self.board@.len() == 81,
                col_i < 9,
                y <= 9,
                column@.len() == y,
                forall|k: int| 0 <= k < y ==> column@[k] == self.board@[cell_key(col_i as int, k)],
            decreases 9 - y,
        {
            let v = self.get(col_i, y);
            column.push(v);
            y += 1;
        }
        proof {
            assert(column@ =~= col_seq(self.board@, col_i as int));
        }
        column
    }

    /// The 9 values of square `sq_i`, scanned row by row within the square.
    pub fn get_square(&self, sq_i: usize) -> (r: Vec<u8>)
        requires
            self.board@.len() == 81,
            sq_i < 9,
        ensures
            r@ == square_seq(self.board@, sq_i as int),
    {
        let x_offset = (sq_i % 3) * 3;
        let y_offset = (sq_i / 3) * 3;
        let mut square: Vec<u8> = Vec::new();
        let mut k: usize = 0;
        while k < 9
            invariant
                self.board@.len() == 81,
                sq_i < 9,
                x_offset == (sq_i as int % 3) * 3,
                y_offset == (sq_i as int / 3) * 3,
                k <= 9,
                square@.len() == k,
                forall|m: int|
                    0 <= m < k ==> square@[m] == self.board@[cell_key(
                        (sq_i as int % 3) * 3 + m % 3,
                        (sq_i as int / 3) * 3 + m / 3,
                    )],
            decreases 9 - k,
        {
            let v = self.get(x_offset + k % 3, y_offset + k / 3);
            square.push(v);
            k += 1;
        }
        proof {
            assert(square@ =~= square_seq(self.board@, sq_i as int));
        }
        square
    }

    /// The values of the square containing cell `(x, y)`.
    pub fn get_square_from_pos(&self, x: usize, y: usize) -> (r: Vec<u8>)
        requires
            self.board@.len() == 81,
            x < 9,
            y < 9,
        ensures
            r@ == square_seq(self.board@, square_index(x as int, y as int)),
    {
        let square_x = x / 3;
        let square_y = y / 3;
        self.get_square(square_y * 3 + square_x)
    }

    /// True iff the row, column and square containing `(x, y)` are each free
    /// of duplicate digits.
    pub fn is_pos_correct(&self, x: usize, y: usize) -> (r: bool)
        requires
            grid_wf(self.board@),
            x < 9,
            y < 9,
        ensures
            r == cell_ok(self.board@, x as int, y as int),
    {
        let is_row_correct = Board::is_array_unique(self.get_row(y));
        let is_column_correct = Board::is_array_unique(self.get_column(x));
        let is_square_correct = Board::is_array_unique(self.get_square_from_pos(x, y));

        is_row_correct && is_column_correct && is_square_correct
    }

    /// True iff no digit 1-9 occurs twice in the 9-element sequence; blanks
    /// (0) are ignored. Implemented by counting each value's occurrences.
    pub fn is_array_unique(array: Vec<u8>) -> (r: bool)
        requires
            array@.len() == 9,
            forall|k: int| 0 <= k < 9 ==> array@[k] <= 9,
        ensures
            r == seq_unique(array@),
    {
        let mut num_count: Vec<u8> = vec![0u8; 10];
        let mut i: usize = 0;
        while i < 9
            invariant
                array@.len() == 9,
                forall|k: int| 0 <= k < 9 ==> array@[k] <= 9,
                num_count@.len() == 10,
                i <= 9,
                forall|v: int| 0 <= v < 10 ==> num_count@[v] == occ(array@.take(i as int), v as u8),
            decreases 9 - i,
        {
            let n = array[i];
            proof {
                lemma_occ_le_len(array@.take(i as int), n);
            }
            num_count[n as usize] = num_count[n as usize] + 1;
            proof {
                assert(array@.take(i + 1).drop_last() =~= array@.take(i as int));
                assert(array@.take(i + 1).last() == array@[i as int]);
            }
            i += 1;
        }
        proof {
            assert(array@.take(9) =~= array@);
        }
        let mut d: usize = 1;
        while d < 10
            invariant
                array@.len() == 9,
                forall|k: int| 0 <= k < 9 ==> array@[k] <= 9,
                num_count@.len() == 10,
                1 <= d <= 10,
                forall|v: int| 0 <= v < 10 ==> num_count@[v] == occ(array@, v as u8),
                forall|v: u8| 1 <= v < d ==> occ(array@, v) <= 1,
            decreases 10 - d,
        {
            if num_count[d] > 1 {
                proof {
                    lemma_occ_ge_2_not_unique(array@, d as u8);
                }
                return false;
            }
            d += 1;
        }
        proof {
            assert forall|p: int, q: int|
                0 <= p < q < array@.len() && array@[p] != 0 implies array@[p] != array@[q] by {
                if array@[p] == array@[q] {
                    lemma_occ_two(array@, array@[p], p, q);
                }
            }
        }
        true
    }
}

/// Occurrence counts never exceed the sequence length.
pub proof fn lemma_occ_le_len(s: Seq<u8>, v: u8)
    ensures
        occ(s, v) <= s.len(),
    decreases s.len(),
{
    if s.len() > 0 {
        lemma_occ_le_len(s.drop_last(), v);
    }
}

/// A value found at some index occurs at least once.
pub proof fn lemma_occ_one(s: Seq<u8>, v: u8, p: int)
    requires
        0 <= p < s.len(),
        s[p] == v,
    ensures
        occ(s, v) >= 1,
    decreases s.len(),
{
    if p < s.len() - 1 {
        lemma_occ_one(s.drop_last(), v, p);
    }
}

/// A value found at two distinct indices occurs at least twice.
pub proof fn lemma_occ_two(s: Seq<u8>, v: u8, p: int, q: int)
    requires
        0 <= p < q < s.len(),
        s[p] == v,
        s[q] == v,
    ensures
        occ(s, v) >= 2,
    decreases s.len(),
{
    if q == s.len() - 1 {
        lemma_occ_one(s.drop_last(), v, p);
    } else {
        lemma_occ_two(s.drop_last(), v, p, q);
    }
}

/// A value absent from every index occurs zero times.
pub proof fn lemma_occ_none(s: Seq<u8>, v: u8)
    requires
        forall|k: int| 0 <= k < s.len() ==> s[k] != v,
    ensures
        occ(s, v) == 0,
    decreases s.len(),
{
    if s.len() > 0 {
        lemma_occ_none(s.drop_last(), v);
    }
}

/// In a duplicate-free sequence every nonzero value occurs at most once.
pub proof fn lemma_occ_le_1(s: Seq<u8>, v: u8)
    requires
        seq_unique(s),
        v != 0,
    ensures
        occ(s, v) <= 1,
    decreases s.len(),
{
    if s.len() > 0 {
        let d = s.drop_last();
        assert(seq_unique(d));
        lemma_occ_le_1(d, v);
        if s.last() == v {
            assert forall|k: int| 0 <= k < d.len() implies d[k] != v by {
                if d[k] == v {
                    assert(s[k] == v && s[s.len() - 1] == v);
                }
            }
            lemma_occ_none(d, v);
        }
    }
}

/// A nonzero value occurring twice refutes duplicate-freedom.
pub proof fn lemma_occ_ge_2_not_unique(s: Seq<u8>, v: u8)
    requires
        occ(s, v) >= 2,
        v != 0,
    ensures
        !seq_unique(s),
{
    if seq_unique(s) {
        lemma_occ_le_1(s, v);
    }
}

} // verus!
