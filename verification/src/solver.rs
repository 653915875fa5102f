//! Backtracking search over the free cells of a [`Board`].

use vstd::prelude::*;
use crate::board::{
    all_ok, cell_key, cell_ok, col_seq, grid_wf, lemma_occ_le_1, lemma_occ_none, lemma_occ_one,
    occ, pos_in_range, pos_key, row_seq, seq_unique, square_index, square_seq, Board, Pos,
};

verus! {

/// Some free-cell entry names the flat cell index `k`.
pub open spec fn is_free_cell(free: Seq<Pos>, k: int) -> bool {
    exists|j: int| 0 <= j < free.len() && pos_key(#[trigger] free[j]) == k
}

/// Powers of ten, used to read a digit sequence as a number.
pub open spec fn pow10(k: nat) -> nat
    decreases k,
{
    if k == 0 {
        1
    } else {
        10 * pow10((k - 1) as nat)
    }
}

/// The number whose base-10 digits are `s`, most significant first.
pub open spec fn to_num(s: Seq<nat>) -> nat
    decreases s.len(),
{
    if s.len() == 0 {
        0
    } else {
        s[0] * pow10((s.len() - 1) as nat) + to_num(s.drop_first())
    }
}

/// Every entry is a base-10 digit.
pub open spec fn digits_ok(s: Seq<nat>) -> bool {
    forall|j: int| 0 <= j < s.len() ==> s[j] <= 9
}

/// The search-progress digits: the value of each free cell up to the cursor,
/// and 9 for every cell beyond it. Read as a number this grows with every
/// candidate the search tries, which bounds the search.
pub open spec fn progress_digits(g: Seq<u8>, free: Seq<Pos>, cursor: int) -> Seq<nat> {
    Seq::new(free.len(), |j: int| if j <= cursor { g[pos_key(free[j])] as nat } else { 9nat })
}

/// A digit string is smaller than the power of ten of its length.
proof fn lemma_to_num_bound(s: Seq<nat>)
    requires
        digits_ok(s),
    ensures
        to_num(s) < pow10(s.len()),
    decreases s.len(),
{
    if s.len() > 0 {
        lemma_to_num_bound(s.drop_first());
        let p = pow10((s.len() - 1) as nat);
        assert(s[0] * p <= 9 * p) by (nonlinear_arith)
            requires
                s[0] <= 9,
                p >= 0,
        ;
        assert(pow10(s.len()) == 10 * p);
    }
}

/// Reading digits as a number respects lexicographic order: agreeing up to
/// index `i` and growing there makes the number grow, whatever follows.
proof fn lemma_to_num_lex(s1: Seq<nat>, s2: Seq<nat>, i: int)
    requires
        s1.len() == s2.len(),
        digits_ok(s1),
        digits_ok(s2),
        0 <= i < s1.len(),
        forall|j: int| 0 <= j < i ==> s1[j] == s2[j],
        s1[i] < s2[i],
    ensures
        to_num(s1) < to_num(s2),
    decreases s1.len(),
{
    if i == 0 {
        lemma_to_num_bound(s1.drop_first());
        lemma_to_num_bound(s2.drop_first());
        let p = pow10((s1.len() - 1) as nat);
        assert(to_num(s1) == s1[0] * p + to_num(s1.drop_first()));
        assert(to_num(s1) < s1[0] * p + p);
        assert(s1[0] * p + p == (s1[0] + 1) * p) by (nonlinear_arith);
        assert((s1[0] + 1) * p <= s2[0] * p) by (nonlinear_arith)
            requires
                s1[0] + 1 <= s2[0],
                p >= 0,
        ;
        assert(to_num(s2) >= s2[0] * p);
    } else {
        lemma_to_num_lex(s1.drop_first(), s2.drop_first(), i - 1);
    }
}

/// The grid as the search sees it while working on free cell `i`: the cell
/// under the cursor counts as blank, since its current value is only a
/// candidate still being cycled.
pub open spec fn cursor_zeroed(g: Seq<u8>, free: Seq<Pos>, i: int) -> Seq<u8> {
    if 0 <= i < free.len() {
        g.update(pos_key(free[i]), 0)
    } else {
        g
    }
}

/// Two cells on the grid with the same flat index are the same cell.
proof fn lemma_key_injective(x1: int, y1: int, x2: int, y2: int)
    requires
        0 <= x1 < 9,
        0 <= y1 < 9,
        0 <= x2 < 9,
        0 <= y2 < 9,
        cell_key(x1, y1) == cell_key(x2, y2),
    ensures
        x1 == x2 && y1 == y2,
{
}

/// Updating one cell changes only its own row, column and square, and changes
/// those by a single-element update.
#[verifier::rlimit(60)]
proof fn lemma_update_locality(g: Seq<u8>, x0: int, y0: int, v: u8)
    requires
        g.len() == 81,
        0 <= x0 < 9,
        0 <= y0 < 9,
    ensures
        forall|y: int|
            0 <= y < 9 && y != y0 ==> #[trigger] row_seq(g.update(cell_key(x0, y0), v), y)
                == row_seq(g, y),
        forall|x: int|
            0 <= x < 9 && x != x0 ==> #[trigger] col_seq(g.update(cell_key(x0, y0), v), x)
                == col_seq(g, x),
        forall|s: int|
            0 <= s < 9 && s != square_index(x0, y0) ==> #[trigger] square_seq(
                g.update(cell_key(x0, y0), v),
                s,
            ) == square_seq(g, s),
        row_seq(g.update(cell_key(x0, y0), v), y0) == row_seq(g, y0).update(x0, v),
        col_seq(g.update(cell_key(x0, y0), v), x0) == col_seq(g, x0).update(y0, v),
        square_seq(g.update(cell_key(x0, y0), v), square_index(x0, y0)) == square_seq(
            g,
            square_index(x0, y0),
        ).update((y0 % 3) * 3 + x0 % 3, v),
{
    let g2 = g.update(cell_key(x0, y0), v);
    let s0 = square_index(x0, y0);
    assert forall|y: int| 0 <= y < 9 && y != y0 implies #[trigger] row_seq(g2, y) == row_seq(
        g,
        y,
    ) by {
        assert forall|x: int| 0 <= x < 9 implies row_seq(g2, y)[x] == row_seq(g, y)[x] by {
            assert(cell_key(x, y) != cell_key(x0, y0));
        }
        assert(row_seq(g2, y) =~= row_seq(g, y));
    }
    assert forall|x: int| 0 <= x < 9 && x != x0 implies #[trigger] col_seq(g2, x) == col_seq(
        g,
        x,
    ) by {
        assert forall|y: int| 0 <= y < 9 implies col_seq(g2, x)[y] == col_seq(g, x)[y] by {
            assert(cell_key(x, y) != cell_key(x0, y0));
        }
        assert(col_seq(g2, x) =~= col_seq(g, x));
    }
    assert forall|s: int| 0 <= s < 9 && s != s0 implies #[trigger] square_seq(g2, s) == square_seq(
        g,
        s,
    ) by {
        assert forall|k: int| 0 <= k < 9 implies square_seq(g2, s)[k] == square_seq(g, s)[k] by {
            let x = (s % 3) * 3 + k % 3;
            let y = (s / 3) * 3 + k / 3;
            assert(square_index(x, y) == s);
            if cell_key(x, y) == cell_key(x0, y0) {
                lemma_key_injective(x, y, x0, y0);
            }
        }
        assert(square_seq(g2, s) =~= square_seq(g, s));
    }
    assert forall|x: int| 0 <= x < 9 implies row_seq(g2, y0)[x] == row_seq(g, y0).update(x0, v)[
        x
    ] by {
        if x != x0 {
            assert(cell_key(x, y0) != cell_key(x0, y0));
        }
    }
    assert(row_seq(g2, y0) =~= row_seq(g, y0).update(x0, v));
    assert forall|y: int| 0 <= y < 9 implies col_seq(g2, x0)[y] == col_seq(g, x0).update(y0, v)[
        y
    ] by {
        if y != y0 {
            assert(cell_key(x0, y) != cell_key(x0, y0));
        }
    }
    assert(col_seq(g2, x0) =~= col_seq(g, x0).update(y0, v));
    let k0 = (y0 % 3) * 3 + x0 % 3;
    assert forall|k: int| 0 <= k < 9 implies square_seq(g2, s0)[k] == square_seq(g, s0).update(
        k0,
        v,
    )[k] by {
        let x = (s0 % 3) * 3 + k % 3;
        let y = (s0 / 3) * 3 + k / 3;
        assert(s0 % 3 == x0 / 3);
        assert(s0 / 3 == y0 / 3);
        if k == k0 {
            assert(x == x0 && y == y0);
        } else {
            if cell_key(x, y) == cell_key(x0, y0) {
                lemma_key_injective(x, y, x0, y0);
                assert(k == k0);
            }
        }
    }
    assert(square_seq(g2, s0) =~= square_seq(g, s0).update(k0, v));
}

/// Blanking an entry cannot create a duplicate digit.
proof fn lemma_seq_unique_zero(s: Seq<u8>, j: int)
    requires
        seq_unique(s),
        0 <= j < s.len(),
    ensures
        seq_unique(s.update(j, 0)),
{
    let s2 = s.update(j, 0);
    assert forall|p: int, q: int| 0 <= p < q < s2.len() && s2[p] != 0 implies s2[p] != s2[q] by {
        if p != j && q != j {
            assert(s2[p] == s[p] && s2[q] == s[q]);
        }
    }
}

/// A placement that passes its own consistency check keeps every previously
/// consistent cell consistent: the new value can only disturb its own row,
/// column and square, and those were just checked.
proof fn lemma_cell_ok_preserved(g: Seq<u8>, x0: int, y0: int, v: u8, x: int, y: int)
    requires
        g.len() == 81,
        0 <= x0 < 9,
        0 <= y0 < 9,
        0 <= x < 9,
        0 <= y < 9,
        cell_ok(g.update(cell_key(x0, y0), v), x0, y0),
        cell_ok(g, x, y),
    ensures
        cell_ok(g.update(cell_key(x0, y0), v), x, y),
{
    lemma_update_locality(g, x0, y0, v);
    let g2 = g.update(cell_key(x0, y0), v);
    if y != y0 {
        assert(row_seq(g2, y) == row_seq(g, y));
    }
    if x != x0 {
        assert(col_seq(g2, x) == col_seq(g, x));
    }
    if square_index(x, y) != square_index(x0, y0) {
        assert(square_seq(g2, square_index(x, y)) == square_seq(g, square_index(x, y)));
    }
}

/// Blanking one cell keeps every consistent cell consistent.
proof fn lemma_cell_ok_after_zero(g: Seq<u8>, x0: int, y0: int, x: int, y: int)
    requires
        g.len() == 81,
        0 <= x0 < 9,
        0 <= y0 < 9,
        0 <= x < 9,
        0 <= y < 9,
        cell_ok(g, x, y),
    ensures
        cell_ok(g.update(cell_key(x0, y0), 0), x, y),
{
    lemma_update_locality(g, x0, y0, 0);
    let g2 = g.update(cell_key(x0, y0), 0);
    if y == y0 {
        lemma_seq_unique_zero(row_seq(g, y0), x0);
    } else {
        assert(row_seq(g2, y) == row_seq(g, y));
    }
    if x == x0 {
        lemma_seq_unique_zero(col_seq(g, x0), y0);
    } else {
        assert(col_seq(g2, x) == col_seq(g, x));
    }
    if square_index(x, y) == square_index(x0, y0) {
        lemma_seq_unique_zero(square_seq(g, square_index(x0, y0)), (y0 % 3) * 3 + x0 % 3);
    } else {
        assert(square_seq(g2, square_index(x, y)) == square_seq(g, square_index(x, y)));
    }
}

/// If a grid was consistent everywhere, only free cells changed, and every
/// free cell is consistent afterwards, the whole grid is consistent again:
/// each row, column and square either contains a free cell, whose own check
/// covers it, or is unchanged.
#[verifier::rlimit(60)]
pub proof fn lemma_full_consistency(b: Seq<u8>, a: Seq<u8>, free: Seq<Pos>)
    requires
        b.len() == 81,
        a.len() == 81,
        all_ok(b),
        forall|j: int| 0 <= j < free.len() ==> pos_in_range(#[trigger] free[j]),
        forall|k: int| 0 <= k < 81 && !is_free_cell(free, k) ==> a[k] == b[k],
        forall|j: int|
            0 <= j < free.len() ==> cell_ok(a, (#[trigger] free[j]).0 as int, free[j].1 as int),
    ensures
        all_ok(a),
{
    assert forall|i: int| 0 <= i < 9 implies seq_unique(#[trigger] row_seq(a, i)) && seq_unique(
        col_seq(a, i),
    ) && seq_unique(square_seq(a, i)) by {
        if exists|j: int| 0 <= j < free.len() && (#[trigger] free[j]).1 == i {
            let j = choose|j: int| 0 <= j < free.len() && (#[trigger] free[j]).1 == i;
            assert(cell_ok(a, free[j].0 as int, free[j].1 as int));
        } else {
            assert forall|x: int| 0 <= x < 9 implies row_seq(a, i)[x] == row_seq(b, i)[x] by {
                let k = cell_key(x, i);
                if is_free_cell(free, k) {
                    let j = choose|j: int| 0 <= j < free.len() && pos_key(#[trigger] free[j]) == k;
                    lemma_key_injective(free[j].0 as int, free[j].1 as int, x, i);
                }
            }
            assert(row_seq(a, i) =~= row_seq(b, i));
        }
        if exists|j: int| 0 <= j < free.len() && (#[trigger] free[j]).0 == i {
            let j = choose|j: int| 0 <= j < free.len() && (#[trigger] free[j]).0 == i;
            assert(cell_ok(a, free[j].0 as int, free[j].1 as int));
        } else {
            assert forall|y: int| 0 <= y < 9 implies col_seq(a, i)[y] == col_seq(b, i)[y] by {
                let k = cell_key(i, y);
                if is_free_cell(free, k) {
                    let j = choose|j: int| 0 <= j < free.len() && pos_key(#[trigger] free[j]) == k;
                    lemma_key_injective(free[j].0 as int, free[j].1 as int, i, y);
                }
            }
            assert(col_seq(a, i) =~= col_seq(b, i));
        }
        if exists|j: int|
            0 <= j < free.len() && square_index(
                (#[trigger] free[j]).0 as int,
                free[j].1 as int,
            ) == i {
            let j = choose|j: int|
                0 <= j < free.len() && square_index(
                    (#[trigger] free[j]).0 as int,
                    free[j].1 as int,
                ) == i;
            assert(cell_ok(a, free[j].0 as int, free[j].1 as int));
        } else {
            assert forall|k: int| 0 <= k < 9 implies square_seq(a, i)[k] == square_seq(b, i)[
                k
            ] by {
                let x = (i % 3) * 3 + k % 3;
                let y = (i / 3) * 3 + k / 3;
                assert(square_index(x, y) == i);
                let key = cell_key(x, y);
                if is_free_cell(free, key) {
                    let j = choose|j: int|
                        0 <= j < free.len() && pos_key(#[trigger] free[j]) == key;
                    lemma_key_injective(free[j].0 as int, free[j].1 as int, x, y);
                }
            }
            assert(square_seq(a, i) =~= square_seq(b, i));
        }
    }
}

/// The values a grid gives to the free cells, in list order.
pub open spec fn free_values(w: Seq<u8>, free: Seq<Pos>) -> Seq<nat> {
    Seq::new(free.len(), |j: int| w[pos_key(free[j])] as nat)
}

/// `w` solves the puzzle whose givens are `b0` and whose free cells are
/// `free`: it keeps every given, assigns a digit 1-9 to every free cell, and
/// every free cell's row, column and square are free of duplicates.
pub open spec fn is_solution(b0: Seq<u8>, free: Seq<Pos>, w: Seq<u8>) -> bool {
    &&& w.len() == 81
    &&& forall|k: int| 0 <= k < 81 && !is_free_cell(free, k) ==> w[k] == b0[k]
    &&& forall|j: int| 0 <= j < free.len() ==> 1 <= w[pos_key(#[trigger] free[j])] <= 9
    &&& forall|j: int|
        0 <= j < free.len() ==> cell_ok(w, (#[trigger] free[j]).0 as int, free[j].1 as int)
}

/// `w` is lexicographically at or above `f` from position `m` on.
pub open spec fn ge_from(w: Seq<nat>, f: Seq<nat>, m: int) -> bool
    decreases w.len() - m,
{
    if m < 0 || m >= w.len() {
        true
    } else if w[m] != f[m] {
        w[m] > f[m]
    } else {
        ge_from(w, f, m + 1)
    }
}

/// The search frontier at cursor `i`: the smallest free-cell assignment not
/// yet ruled out, namely the placed digits, one more than the candidate at
/// the cursor, and zeros beyond it. Every solution stays lexicographically
/// at or above it throughout the search.
pub open spec fn frontier(g: Seq<u8>, free: Seq<Pos>, i: int) -> Seq<nat> {
    Seq::new(
        free.len(),
        |j: int|
            if j < i {
                g[pos_key(free[j])] as nat
            } else if j == i {
                (g[pos_key(free[j])] + 1) as nat
            } else {
                0nat
            },
    )
}

/// A vector of positive digits is at or above any frontier that is zero from
/// `m` on.
proof fn lemma_ge_tail_zero(w: Seq<nat>, f: Seq<nat>, m: int)
    requires
        0 <= m,
        forall|j: int| m <= j < w.len() ==> f[j] == 0 && #[trigger] w[j] >= 1,
    ensures
        ge_from(w, f, m),
{
}

/// A frontier whose cursor digit is impossible (10, above every cell digit)
/// forces strictness earlier: the same vectors stay at or above the frontier
/// that instead bumps the digit one place before the cursor.
proof fn lemma_ge_shift_back(w: Seq<nat>, f_old: Seq<nat>, f_new: Seq<nat>, m: int, i: int)
    requires
        w.len() == f_old.len(),
        w.len() == f_new.len(),
        0 <= m < i < w.len(),
        forall|j: int| 0 <= j < w.len() ==> 1 <= #[trigger] w[j] <= 9,
        forall|j: int| 0 <= j < i - 1 ==> f_old[j] == f_new[j],
        f_new[i - 1] == f_old[i - 1] + 1,
        f_old[i] == 10,
        forall|j: int| i <= j < w.len() ==> f_new[j] == 0,
        ge_from(w, f_old, m),
    ensures
        ge_from(w, f_new, m),
    decreases i - m,
{
    if m == i - 1 {
        if w[m] == f_old[m] {
            assert(!ge_from(w, f_old, i));
        } else {
            if w[m] == f_new[m] {
                lemma_ge_tail_zero(w, f_new, i);
            }
        }
    } else {
        if w[m] == f_old[m] {
            lemma_ge_shift_back(w, f_old, f_new, m + 1, i);
        }
    }
}

/// Once the assignment that matches the frontier exactly is ruled out, the
/// vectors stay at or above the frontier with the cursor digit bumped by one.
proof fn lemma_ge_bump(w: Seq<nat>, f_old: Seq<nat>, f_new: Seq<nat>, m: int, i: int)
    requires
        w.len() == f_old.len(),
        w.len() == f_new.len(),
        0 <= m <= i < w.len(),
        forall|j: int| 0 <= j < w.len() ==> 1 <= #[trigger] w[j] <= 9,
        forall|j: int| 0 <= j < i ==> f_old[j] == f_new[j],
        f_new[i] == f_old[i] + 1,
        forall|j: int| i < j < w.len() ==> f_old[j] == 0 && f_new[j] == 0,
        ge_from(w, f_old, m),
        forall|j: int| 0 <= j < m ==> w[j] == f_old[j],
        !((forall|j: int| 0 <= j < i ==> w[j] == f_old[j]) && w[i] == f_old[i]),
    ensures
        ge_from(w, f_new, m),
    decreases i - m,
{
    if m == i {
        assert(w[i] != f_old[i]);
        assert(w[i] > f_old[i]);
        if w[m] == f_new[m] {
            lemma_ge_tail_zero(w, f_new, i + 1);
        }
    } else {
        if w[m] == f_old[m] {
            lemma_ge_bump(w, f_old, f_new, m + 1, i);
        }
    }
}

/// Moving the cursor forward past a placed digit keeps every vector at or
/// above the frontier: the new frontier only asks for a positive digit where
/// the old one asked for zero.
proof fn lemma_ge_advance(w: Seq<nat>, f_old: Seq<nat>, f_new: Seq<nat>, m: int, i: int)
    requires
        w.len() == f_old.len(),
        w.len() == f_new.len(),
        0 <= m <= i < w.len(),
        forall|j: int| 0 <= j < w.len() ==> 1 <= #[trigger] w[j] <= 9,
        forall|j: int| 0 <= j < i ==> f_old[j] == f_new[j],
        f_new[i] == 1,
        forall|j: int| i < j < w.len() ==> f_new[j] == 0,
        ge_from(w, f_old, m),
    ensures
        ge_from(w, f_new, m),
    decreases i - m,
{
    if m == i {
        if w[m] == f_new[m] {
            lemma_ge_tail_zero(w, f_new, i + 1);
        }
    } else {
        if w[m] == f_old[m] {
            lemma_ge_advance(w, f_old, f_new, m + 1, i);
        }
    }
}

/// An inconsistency in a partial grid survives in every grid that extends it:
/// filling blanks can never remove a duplicate pair of digits.
proof fn lemma_extension_not_ok(g: Seq<u8>, w: Seq<u8>, x: int, y: int)
    requires
        g.len() == 81,
        w.len() == 81,
        0 <= x < 9,
        0 <= y < 9,
        forall|k: int| 0 <= k < 81 && g[k] != 0 ==> w[k] == g[k],
        !cell_ok(g, x, y),
    ensures
        !cell_ok(w, x, y),
{
    if !seq_unique(row_seq(g, y)) {
        let (p, q) = choose|p: int, q: int|
            0 <= p < q < 9 && row_seq(g, y)[p] != 0 && row_seq(g, y)[p] == row_seq(g, y)[q];
        assert(row_seq(w, y)[p] == row_seq(g, y)[p] && row_seq(w, y)[q] == row_seq(g, y)[q]);
        assert(!seq_unique(row_seq(w, y)));
    } else if !seq_unique(col_seq(g, x)) {
        let (p, q) = choose|p: int, q: int|
            0 <= p < q < 9 && col_seq(g, x)[p] != 0 && col_seq(g, x)[p] == col_seq(g, x)[q];
        assert(col_seq(w, x)[p] == col_seq(g, x)[p] && col_seq(w, x)[q] == col_seq(g, x)[q]);
        assert(!seq_unique(col_seq(w, x)));
    } else {
        let s = square_index(x, y);
        let (p, q) = choose|p: int, q: int|
            0 <= p < q < 9 && square_seq(g, s)[p] != 0 && square_seq(g, s)[p] == square_seq(g, s)[q];
        assert(square_seq(w, s)[p] == square_seq(g, s)[p] && square_seq(w, s)[q] == square_seq(
            g,
            s,
        )[q]);
        assert(!seq_unique(square_seq(w, s)));
    }
}

/// Two given cells in one row that share a digit make the puzzle unsolvable
/// whenever any free cell lies in that row: no assignment can ever make that
/// row duplicate-free, so the search is bound to fail there.
pub proof fn lemma_conflicting_givens_unsolvable(
    b0: Seq<u8>,
    free: Seq<Pos>,
    x1: int,
    x2: int,
    y: int,
    j: int,
)
    requires
        b0.len() == 81,
        0 <= x1 < x2 < 9,
        0 <= y < 9,
        b0[cell_key(x1, y)] != 0,
        b0[cell_key(x1, y)] == b0[cell_key(x2, y)],
        !is_free_cell(free, cell_key(x1, y)),
        !is_free_cell(free, cell_key(x2, y)),
        0 <= j < free.len(),
        free[j].1 == y,
        pos_in_range(free[j]),
    ensures
        forall|w: Seq<u8>| !is_solution(b0, free, w),
{
    assert forall|w: Seq<u8>| !is_solution(b0, free, w) by {
        if is_solution(b0, free, w) {
            assert(w[cell_key(x1, y)] == b0[cell_key(x1, y)]);
            assert(w[cell_key(x2, y)] == b0[cell_key(x2, y)]);
            assert(row_seq(w, y)[x1] != 0 && row_seq(w, y)[x1] == row_seq(w, y)[x2]);
            assert(!seq_unique(row_seq(w, y)));
            assert(cell_ok(w, free[j].0 as int, free[j].1 as int));
        }
    }
}

/// A duplicate-free 9-element sequence of digits 1-9 holds every such digit.
proof fn lemma_unique_full_contains(s: Seq<u8>)
    requires
        s.len() == 9,
        seq_unique(s),
        forall|k: int| 0 <= k < 9 ==> 1 <= #[trigger] s[k] <= 9,
    ensures
        forall|d: u8| 1 <= d <= 9 ==> s.contains(d),
{
    broadcast use vstd::seq_lib::seq_to_set_is_finite;

    assert(s.no_duplicates());
    s.unique_seq_to_set();
    let digits: Seq<u8> = seq![1u8, 2u8, 3u8, 4u8, 5u8, 6u8, 7u8, 8u8, 9u8];
    assert(digits.no_duplicates());
    digits.unique_seq_to_set();
    let dset = digits.to_set();
    assert(digits[0] == 1 && digits[1] == 2 && digits[2] == 3 && digits[3] == 4 && digits[4] == 5
        && digits[5] == 6 && digits[6] == 7 && digits[7] == 8 && digits[8] == 9);
    assert forall|d: u8| 1 <= d <= 9 implies dset.contains(d) by {
        assert(digits[d as int - 1] == d);
    }
    assert forall|d: u8| 1 <= d <= 9 implies s.contains(d) by {
        if !s.contains(d) {
            assert(s.to_set().subset_of(dset)) by {
                assert forall|v: u8| s.to_set().contains(v) implies dset.contains(v) by {
                    let k = choose|k: int| 0 <= k < s.len() && s[k] == v;
                    assert(digits[v as int - 1] == v);
                }
            }
            s.to_set().lemma_subset_not_in_lt(dset, d);
        }
    }
}

/// The uniqueness law of solved grids: in a grid with no blanks whose every
/// row, column and square is free of duplicates, every row, column and square
/// holds each digit 1 through 9 exactly once, i.e. is a permutation of the
/// nine digits.
pub proof fn lemma_solved_grid_is_permutation(g: Seq<u8>)
    requires
        grid_wf(g),
        all_ok(g),
        forall|k: int| 0 <= k < 81 ==> g[k] != 0,
    ensures
        forall|i: int, d: u8|
            #![trigger row_seq(g, i).contains(d)]
            #![trigger col_seq(g, i).contains(d)]
            #![trigger square_seq(g, i).contains(d)]
            0 <= i < 9 && 1 <= d <= 9 ==> row_seq(g, i).contains(d) && col_seq(g, i).contains(d)
                && square_seq(g, i).contains(d),
        forall|i: int| 0 <= i < 9 ==> occ(#[trigger] row_seq(g, i), 0) == 0,
        forall|i: int| 0 <= i < 9 ==> occ(#[trigger] col_seq(g, i), 0) == 0,
        forall|i: int| 0 <= i < 9 ==> occ(#[trigger] square_seq(g, i), 0) == 0,
        forall|i: int, d: u8|
            #![trigger occ(row_seq(g, i), d)]
            #![trigger occ(col_seq(g, i), d)]
            #![trigger occ(square_seq(g, i), d)]
            0 <= i < 9 && 1 <= d <= 9 ==> occ(row_seq(g, i), d) == 1 && occ(col_seq(g, i), d) == 1
                && occ(square_seq(g, i), d) == 1,
{
    assert forall|i: int| 0 <= i < 9 implies valid_group(row_seq(g, i)) && valid_group(
        col_seq(g, i),
    ) && valid_group(square_seq(g, i)) by {
        assert(square_index((i % 3) * 3, (i / 3) * 3) == i);
    }
    assert forall|i: int, d: u8|
        #![trigger row_seq(g, i).contains(d)]
        #![trigger col_seq(g, i).contains(d)]
        #![trigger square_seq(g, i).contains(d)]
        0 <= i < 9 && 1 <= d <= 9 implies row_seq(g, i).contains(d) && col_seq(g, i).contains(d)
        && square_seq(g, i).contains(d) by {
        lemma_unique_full_contains(row_seq(g, i));
        lemma_unique_full_contains(col_seq(g, i));
        lemma_unique_full_contains(square_seq(g, i));
    }
    assert forall|i: int| 0 <= i < 9 implies occ(#[trigger] row_seq(g, i), 0) == 0 && occ(
        #[trigger] col_seq(g, i),
        0,
    ) == 0 && occ(#[trigger] square_seq(g, i), 0) == 0 by {
        lemma_occ_none(row_seq(g, i), 0);
        lemma_occ_none(col_seq(g, i), 0);
        lemma_occ_none(square_seq(g, i), 0);
    }
    assert forall|i: int, d: u8|
        #![trigger occ(row_seq(g, i), d)]
        #![trigger occ(col_seq(g, i), d)]
        #![trigger occ(square_seq(g, i), d)]
        0 <= i < 9 && 1 <= d <= 9 implies occ(row_seq(g, i), d) == 1 && occ(col_seq(g, i), d) == 1
        && occ(square_seq(g, i), d) == 1 by {
        lemma_occ_exactly_one(row_seq(g, i), d);
        lemma_occ_exactly_one(col_seq(g, i), d);
        lemma_occ_exactly_one(square_seq(g, i), d);
    }
}

/// A 9-element group in which every cell holds a digit 1-9.
spec fn valid_group(s: Seq<u8>) -> bool {
    s.len() == 9 && (forall|k: int| 0 <= k < 9 ==> 1 <= #[trigger] s[k] <= 9)
}


/// In a duplicate-free group of nine nonzero digits each digit occurs once.
proof fn lemma_occ_exactly_one(s: Seq<u8>, d: u8)
    requires
        valid_group(s),
        seq_unique(s),
        s.contains(d),
        1 <= d <= 9,
    ensures
        occ(s, d) == 1,
    decreases s.len(),
{
    lemma_occ_ge_1(s, d);
    lemma_occ_le_1(s, d);
}

/// A contained value occurs at least once.
proof fn lemma_occ_ge_1(s: Seq<u8>, v: u8)
    requires
        s.contains(v),
    ensures
        occ(s, v) >= 1,
{
    let k = choose|k: int| 0 <= k < s.len() && s[k] == v;
    lemma_occ_one(s, v, k);
}


/// Distinct on-grid cells have distinct flat indices.
proof fn lemma_pos_key_distinct(p1: Pos, p2: Pos)
    requires
        pos_in_range(p1),
        pos_in_range(p2),
        p1 != p2,
    ensures
        pos_key(p1) != pos_key(p2),
{
    if pos_key(p1) == pos_key(p2) {
        lemma_key_injective(p1.0 as int, p1.1 as int, p2.0 as int, p2.1 as int);
    }
}

impl Board {
    /// Fill every free cell with a digit 1-9 by iterative backtracking.
    ///
    /// Candidates for each free cell are tried in ascending order, in the
    /// fixed order of the free-cell list; a placement that breaks row, column
    /// or square uniqueness is retried with the next digit, and an exhausted
    /// cell is blanked again before the search retreats to the previous one.
    ///
    /// On `Ok` the grid is a solution: every originally given cell keeps its
    /// value, every free cell holds a digit whose row, column and square are
    /// free of duplicates, and a grid that was consistent everywhere on entry
    /// is consistent everywhere on exit. On `Err` (candidates for the first
    /// free cell were exhausted) no solution exists at all, and the grid is
    /// restored to exactly its entry state. A board with no free cells
    /// succeeds at once. The search always terminates: the loop's measure
    /// reads the free-cell digits as one number that grows with every
    /// candidate tried.
    #[verifier::loop_isolation(false)]
    #[verifier::rlimit(100)]
    pub fn solve(&mut self) -> (r: Result<(), ()>)
        requires
            old(self).wf(),
            old(self).free_cells_blank(),
        ensures
            final(self).wf(),
            final(self).modify == old(self).modify,
            old(self).modify@.len() == 0 ==> r is Ok,
            r is Err ==> final(self).board@ == old(self).board@,
            r is Ok ==> forall|k: int|
                0 <= k < 81 && !is_free_cell(old(self).modify@, k) ==> final(self).board@[k] == old(
                    self,
                ).board@[k],
            r is Ok ==> forall|j: int|
                0 <= j < old(self).modify@.len() ==> 1 <= final(self).board@[pos_key(
                    #[trigger] old(self).modify@[j],
                )] <= 9,
            r is Ok ==> forall|j: int|
                0 <= j < old(self).modify@.len() ==> cell_ok(
                    final(self).board@,
                    (#[trigger] old(self).modify@[j]).0 as int,
                    old(self).modify@[j].1 as int,
                ),
            r is Ok && all_ok(old(self).board@) ==> all_ok(final(self).board@),
            r is Ok ==> is_solution(old(self).board@, old(self).modify@, final(self).board@),
            r is Err ==> forall|w: Seq<u8>|
                !is_solution(old(self).board@, old(self).modify@, w),
    {
        let ghost b0 = self.board@;
        let ghost free = self.modify@;
        let backup = self.board.clone();
        proof {
            assert(backup@ =~= b0);
        }
        let n = self.modify.len();
        if n == 0 {
            return Ok(());
        }
        let mut modify_i: usize = 0;
        proof {
            let f0 = frontier(b0, free, 0);
            assert forall|w: Seq<u8>| #[trigger] is_solution(b0, free, w) implies ge_from(
                free_values(w, free),
                f0,
                0,
            ) by {
                let wv = free_values(w, free);
                assert(wv[0] == w[pos_key(free[0])] as nat);
                assert(1 <= w[pos_key(free[0])] <= 9);
                assert(f0[0] == 1);
                if wv[0] == 1 {
                    assert forall|j: int| 1 <= j < wv.len() implies f0[j] == 0 && #[trigger] wv[j]
                        >= 1 by {
                        assert(1 <= w[pos_key(free[j])] <= 9);
                    }
                    lemma_ge_tail_zero(wv, f0, 1);
                }
            }
        }
        while modify_i < n
            invariant
                self.wf(),
                self.modify == old(self).modify,
                modify_i <= n,
                forall|k: int|
                    0 <= k < 81 && !is_free_cell(free, k) ==> self.board@[k] == b0[k],
                forall|j: int|
                    0 <= j < modify_i ==> 1 <= self.board@[pos_key(#[trigger] free[j])] <= 9,
                forall|j: int|
                    modify_i < j < n ==> self.board@[pos_key(#[trigger] free[j])] == 0,
                forall|j: int|
                    0 <= j < modify_i ==> cell_ok(
                        cursor_zeroed(self.board@, free, modify_i as int),
                        (#[trigger] free[j]).0 as int,
                        free[j].1 as int,
                    ),
                forall|w: Seq<u8>|
                    #[trigger] is_solution(b0, free, w) ==> ge_from(
                        free_values(w, free),
                        frontier(self.board@, free, modify_i as int),
                        0,
                    ),
            decreases
                    pow10(n as nat) - to_num(progress_digits(self.board@, free, modify_i as int)),
                    modify_i,
        {
            let pos = self.modify[modify_i];
            let x = pos.0;
            let y = pos.1;
            let ghost g_head = self.board@;
            let ghost i0 = modify_i as int;
            let ghost key = pos_key(free[i0]);
            let ghost cz_head = cursor_zeroed(g_head, free, i0);
            let ghost d_head = progress_digits(g_head, free, i0);
            proof {
                assert forall|j: int| 0 <= j < n && j != i0 implies pos_key(#[trigger] free[j])
                    != key by {
                    lemma_pos_key_distinct(free[j], free[i0]);
                }
                assert(is_free_cell(free, key));
                lemma_to_num_bound(d_head);
            }

            let val = self.get_modify_nth_mut(modify_i);
            *val = *val + 1;
            if *val == 10 {
                if modify_i == 0 {
                    proof {
                        let f_old = frontier(g_head, free, 0);
                        assert(f_old[0] == 10);
                        assert forall|w: Seq<u8>| !is_solution(b0, free, w) by {
                            if is_solution(b0, free, w) {
                                let wv = free_values(w, free);
                                assert(ge_from(wv, f_old, 0));
                                assert(1 <= w[pos_key(free[0])] <= 9);
                                assert(wv[0] <= 9);
                            }
                        }
                    }
                    self.board = backup;
                    return Err(());
                }
                *val = 0;
                modify_i -= 1;
                proof {
                    let i1 = i0 - 1;
                    assert(self.board@ == g_head.update(key, 0));
                    assert(self.board@ == cz_head);
                    assert(cursor_zeroed(self.board@, free, i1) == cz_head.update(
                        pos_key(free[i1]),
                        0,
                    ));
                    assert forall|j: int| 0 <= j < i1 implies cell_ok(
                        cursor_zeroed(self.board@, free, i1),
                        (#[trigger] free[j]).0 as int,
                        free[j].1 as int,
                    ) by {
                        lemma_cell_ok_after_zero(
                            cz_head,
                            free[i1].0 as int,
                            free[i1].1 as int,
                            free[j].0 as int,
                            free[j].1 as int,
                        );
                    }
                    assert(progress_digits(self.board@, free, i1) =~= d_head);
                    let f_old = frontier(g_head, free, i0);
                    let f_new = frontier(self.board@, free, i1);
                    assert(f_old[i0] == 10);
                    assert(f_new[i1] == f_old[i1] + 1);
                    assert forall|w: Seq<u8>| #[trigger] is_solution(b0, free, w) implies ge_from(
                        free_values(w, free),
                        f_new,
                        0,
                    ) by {
                        let wv = free_values(w, free);
                        assert(ge_from(wv, f_old, 0));
                        assert forall|j: int| 0 <= j < wv.len() implies 1 <= #[trigger] wv[j]
                            <= 9 by {
                            assert(1 <= w[pos_key(free[j])] <= 9);
                        }
                        lemma_ge_shift_back(wv, f_old, f_new, 0, i0);
                    }
                }
                continue ;
            }
            // The candidate digit is now 1..=9; keep it if the cell's row,
            // column and square are still free of duplicates.
            proof {
                assert(self.board@ == g_head.update(key, (g_head[key] + 1) as u8));
                assert(grid_wf(self.board@));
            }
            let ghost g_new = self.board@;
            proof {
                assert(g_new == cz_head.update(key, g_new[key])) by {
                    assert(g_new =~= cz_head.update(key, g_new[key]));
                }
                let d_new = progress_digits(g_new, free, i0);
                assert(d_new[i0] == g_new[key] && d_head[i0] == g_head[key]);
                lemma_to_num_lex(d_head, d_new, i0);
                lemma_to_num_bound(d_new);
            }
            if self.is_pos_correct(x, y) {
                modify_i += 1;
                proof {
                    let i1 = i0 + 1;
                    assert(cell_ok(g_new, free[i0].0 as int, free[i0].1 as int));
                    assert forall|j: int| 0 <= j < i1 implies cell_ok(
                        g_new,
                        (#[trigger] free[j]).0 as int,
                        free[j].1 as int,
                    ) by {
                        if j < i0 {
                            lemma_cell_ok_preserved(
                                cz_head,
                                free[i0].0 as int,
                                free[i0].1 as int,
                                g_new[key],
                                free[j].0 as int,
                                free[j].1 as int,
                            );
                        }
                    }
                    assert(cursor_zeroed(g_new, free, i1) =~= g_new);
                    let d_new = progress_digits(g_new, free, i1);
                    assert(d_new[i0] == g_new[key] && d_head[i0] == g_head[key]);
                    lemma_to_num_lex(d_head, d_new, i0);
                    lemma_to_num_bound(d_new);
                    let f_old = frontier(g_head, free, i0);
                    let f_new = frontier(g_new, free, i1);
                    assert(f_old[i0] == g_new[key]);
                    if i1 == n {
                        assert(f_new =~= f_old);
                    } else {
                        assert(f_new[i1] == 1);
                    }
                    assert forall|w: Seq<u8>| #[trigger] is_solution(b0, free, w) implies ge_from(
                        free_values(w, free),
                        f_new,
                        0,
                    ) by {
                        let wv = free_values(w, free);
                        assert(ge_from(wv, f_old, 0));
                        if i1 < n {
                            assert forall|j: int| 0 <= j < wv.len() implies 1 <= #[trigger] wv[j]
                                <= 9 by {
                                assert(1 <= w[pos_key(free[j])] <= 9);
                            }
                            lemma_ge_advance(wv, f_old, f_new, 0, i1);
                        }
                    }
                }
            } else {
                proof {
                    assert(cursor_zeroed(g_new, free, i0) =~= cz_head);
                    assert(!cell_ok(g_new, x as int, y as int));
                    let f_old = frontier(g_head, free, i0);
                    let f_new = frontier(g_new, free, i0);
                    assert(f_old[i0] == g_new[key]);
                    assert(f_new[i0] == f_old[i0] + 1);
                    assert forall|w: Seq<u8>| #[trigger] is_solution(b0, free, w) implies ge_from(
                        free_values(w, free),
                        f_new,
                        0,
                    ) by {
                        let wv = free_values(w, free);
                        assert(ge_from(wv, f_old, 0));
                        assert forall|j: int| 0 <= j < wv.len() implies 1 <= #[trigger] wv[j]
                            <= 9 by {
                            assert(1 <= w[pos_key(free[j])] <= 9);
                        }
                        if (forall|j: int| 0 <= j < i0 ==> wv[j] == f_old[j]) && wv[i0] == f_old[
                            i0
                        ] {
                            assert forall|k: int| 0 <= k < 81 && g_new[k] != 0 implies w[k]
                                == g_new[k] by {
                                if is_free_cell(free, k) {
                                    let j = choose|j: int|
                                        0 <= j < free.len() && pos_key(#[trigger] free[j]) == k;
                                    assert(wv[j] == w[k]);
                                    if j < i0 {
                                        assert(f_old[j] == g_head[pos_key(free[j])]);
                                        assert(g_new[k] == g_head[k]);
                                    } else if j == i0 {
                                        assert(f_old[i0] == g_new[key]);
                                    } else {
                                        assert(g_new[k] == g_head[k] && g_head[k] == 0);
                                    }
                                }
                            }
                            lemma_extension_not_ok(g_new, w, x as int, y as int);
                            assert(cell_ok(w, free[i0].0 as int, free[i0].1 as int));
                            assert(false);
                        }
                        lemma_ge_bump(wv, f_old, f_new, 0, i0);
                    }
                }
            }
        }
        proof {
            assert(cursor_zeroed(self.board@, free, n as int) == self.board@);
            if all_ok(b0) {
                lemma_full_consistency(b0, self.board@, free);
            }
            assert(is_solution(b0, free, self.board@));
        }
        Ok(())
    }
}

} // verus!

