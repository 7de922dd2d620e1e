//! Finite sums over rows and grids of integer terms, with the rearrangement
//! facts that incremental defect counting relies on.

use vstd::prelude::*;

verus! {

/// `g(i, 0) + ... + g(i, hi - 1)`.
pub open spec fn row_sum(g: spec_fn(int, int) -> int, i: int, hi: int) -> int
    decreases hi,
{
    if hi <= 0 {
        0
    } else {
        row_sum(g, i, hi - 1) + g(i, hi - 1)
    }
}

/// `g(0, j) + ... + g(hi - 1, j)`.
pub open spec fn col_sum(g: spec_fn(int, int) -> int, j: int, hi: int) -> int
    decreases hi,
{
    if hi <= 0 {
        0
    } else {
        col_sum(g, j, hi - 1) + g(hi - 1, j)
    }
}

/// The sum of `g(i, j)` over `0 <= i < rows` and `0 <= j < cols`, row by row.
pub open spec fn grid_sum(g: spec_fn(int, int) -> int, rows: int, cols: int) -> int
    decreases rows,
{
    if rows <= 0 {
        0
    } else {
        grid_sum(g, rows - 1, cols) + row_sum(g, rows - 1, cols)
    }
}

/// `g(i, s[0]) + ... + g(i, s[t - 1])`.
pub open spec fn pick_sum(g: spec_fn(int, int) -> int, i: int, s: Seq<usize>, t: int) -> int
    decreases t,
{
    if t <= 0 {
        0
    } else {
        pick_sum(g, i, s, t - 1) + g(i, s[t - 1] as int)
    }
}

/// Rows that agree term by term have equal sums.
pub proof fn lemma_row_ext(g: spec_fn(int, int) -> int, h: spec_fn(int, int) -> int, i: int, hi: int)
    requires
        forall|j: int| 0 <= j < hi ==> #[trigger] g(i, j) == h(i, j),
    ensures
        row_sum(g, i, hi) == row_sum(h, i, hi),
    decreases hi,
{
    if hi > 0 {
        lemma_row_ext(g, h, i, hi - 1);
    }
}

/// A row whose terms vanish sums to zero.
pub proof fn lemma_row_zero(g: spec_fn(int, int) -> int, i: int, hi: int)
    requires
        forall|j: int| 0 <= j < hi ==> #[trigger] g(i, j) == 0,
    ensures
        row_sum(g, i, hi) == 0,
    decreases hi,
{
    if hi > 0 {
        lemma_row_zero(g, i, hi - 1);
    }
}

/// A row of terms that are each the sum of two terms is the sum of the two
/// rows.
pub proof fn lemma_row_add(
    f: spec_fn(int, int) -> int,
    g: spec_fn(int, int) -> int,
    h: spec_fn(int, int) -> int,
    i: int,
    hi: int,
)
    requires
        forall|j: int| 0 <= j < hi ==> #[trigger] h(i, j) == f(i, j) + g(i, j),
    ensures
        row_sum(h, i, hi) == row_sum(f, i, hi) + row_sum(g, i, hi),
    decreases hi,
{
    if hi > 0 {
        lemma_row_add(f, g, h, i, hi - 1);
    }
}

/// A row of terms between zero and one sums to at most its length.
pub proof fn lemma_row_bounded(g: spec_fn(int, int) -> int, i: int, hi: int)
    requires
        hi >= 0,
        forall|j: int| 0 <= j < hi ==> 0 <= #[trigger] g(i, j) <= 1,
    ensures
        0 <= row_sum(g, i, hi) <= hi,
    decreases hi,
{
    if hi > 0 {
        lemma_row_bounded(g, i, hi - 1);
    }
}

/// A row in which only the term at `e` may be nonzero sums to that term.
pub proof fn lemma_row_single(g: spec_fn(int, int) -> int, i: int, e: int, hi: int)
    requires
        0 <= e < hi,
        forall|j: int| 0 <= j < hi && j != e ==> #[trigger] g(i, j) == 0,
    ensures
        row_sum(g, i, hi) == g(i, e),
    decreases hi,
{
    if hi - 1 == e {
        lemma_row_zero(g, i, hi - 1);
    } else {
        lemma_row_single(g, i, e, hi - 1);
    }
}

/// Grids that agree term by term have equal sums.
pub proof fn lemma_grid_ext(g: spec_fn(int, int) -> int, h: spec_fn(int, int) -> int, rows: int, cols: int)
    requires
        forall|i: int, j: int| 0 <= i < rows && 0 <= j < cols ==> #[trigger] g(i, j) == h(i, j),
    ensures
        grid_sum(g, rows, cols) == grid_sum(h, rows, cols),
    decreases rows,
{
    if rows > 0 {
        lemma_grid_ext(g, h, rows - 1, cols);
        lemma_row_ext(g, h, rows - 1, cols);
    }
}

/// A grid of terms that are each the sum of two terms is the sum of the two
/// grids.
pub proof fn lemma_grid_add(
    f: spec_fn(int, int) -> int,
    g: spec_fn(int, int) -> int,
    h: spec_fn(int, int) -> int,
    rows: int,
    cols: int,
)
    requires
        forall|i: int, j: int| 0 <= i < rows && 0 <= j < cols ==> #[trigger] h(i, j) == f(i, j) + g(i, j),
    ensures
        grid_sum(h, rows, cols) == grid_sum(f, rows, cols) + grid_sum(g, rows, cols),
    decreases rows,
{
    if rows > 0 {
        lemma_grid_add(f, g, h, rows - 1, cols);
        lemma_row_add(f, g, h, rows - 1, cols);
    }
}

/// A grid of terms between zero and one sums to at most its area.
pub proof fn lemma_grid_bounded(g: spec_fn(int, int) -> int, rows: int, cols: int)
    requires
        rows >= 0,
        cols >= 0,
        forall|i: int, j: int| 0 <= i < rows && 0 <= j < cols ==> 0 <= #[trigger] g(i, j) <= 1,
    ensures
        0 <= grid_sum(g, rows, cols) <= rows * cols,
    decreases rows,
{
    if rows > 0 {
        lemma_grid_bounded(g, rows - 1, cols);
        lemma_row_bounded(g, rows - 1, cols);
        assert((rows - 1) * cols + cols == rows * cols) by (nonlinear_arith);
    }
}

/// Adding a column to a grid adds that column's sum.
proof fn lemma_grid_last_col(g: spec_fn(int, int) -> int, rows: int, cols: int)
    requires
        cols >= 0,
    ensures
        grid_sum(g, rows, cols + 1) == grid_sum(g, rows, cols) + col_sum(g, cols, rows),
    decreases rows,
{
    if rows > 0 {
        lemma_grid_last_col(g, rows - 1, cols);
    }
}

/// A column of one grid is the matching row of its transpose.
proof fn lemma_col_is_row(g: spec_fn(int, int) -> int, h: spec_fn(int, int) -> int, idx: int, len: int)
    requires
        forall|i: int| 0 <= i < len ==> #[trigger] h(i, idx) == g(idx, i),
    ensures
        col_sum(h, idx, len) == row_sum(g, idx, len),
    decreases len,
{
    if len > 0 {
        lemma_col_is_row(g, h, idx, len - 1);
    }
}

/// A square grid and its transpose have equal sums.
pub proof fn lemma_grid_transpose(g: spec_fn(int, int) -> int, h: spec_fn(int, int) -> int, n: int)
    requires
        forall|i: int, j: int| 0 <= i < n && 0 <= j < n ==> #[trigger] h(i, j) == g(j, i),
    ensures
        grid_sum(g, n, n) == grid_sum(h, n, n),
    decreases n,
{
    if n > 0 {
        let k = n - 1;
        lemma_grid_transpose(g, h, k);
        lemma_grid_last_col(g, k, k);
        lemma_grid_last_col(h, k, k);
        lemma_col_is_row(g, h, k, k);
        lemma_col_is_row(h, g, k, k);
        assert(grid_sum(g, n, n) == grid_sum(g, k, k) + col_sum(g, k, k) + row_sum(g, k, k) + g(k, k));
        assert(grid_sum(h, n, n) == grid_sum(h, k, k) + col_sum(h, k, k) + row_sum(h, k, k) + h(k, k));
    }
}

/// The entries of `s` are distinct.
pub open spec fn distinct_entries(s: Seq<usize>) -> bool {
    forall|a: int, b: int| 0 <= a < b < s.len() ==> s[a] != s[b]
}

/// Picking the terms of a row at the distinct positions listed in `s` sums
/// the row restricted to those positions.
pub proof fn lemma_pick_is_restricted_row(
    g: spec_fn(int, int) -> int,
    picked: spec_fn(int, int) -> int,
    i: int,
    s: Seq<usize>,
    hi: int,
)
    requires
        hi <= usize::MAX,
        distinct_entries(s),
        forall|t: int| 0 <= t < s.len() ==> #[trigger] s[t] < hi,
        forall|j: int| 0 <= j < hi ==> #[trigger] picked(i, j) == (if s.contains(j as usize) { g(i, j) } else { 0 }),
    ensures
        pick_sum(g, i, s, s.len() as int) == row_sum(picked, i, hi),
    decreases s.len(),
{
    if s.len() == 0 {
        lemma_row_zero(picked, i, hi);
    } else {
        let t = s.len() - 1;
        let e = s[t] as int;
        let front = s.drop_last();
        let front_picked = |a: int, j: int|
            if front.contains(j as usize) {
                g(a, j)
            } else {
                0
            };
        let single = |a: int, j: int|
            if j == e {
                g(a, j)
            } else {
                0
            };
        assert forall|j: int| 0 <= j < hi implies #[trigger] picked(i, j) == front_picked(i, j) + single(i, j) by {
            if j == e {
                assert(s.contains(j as usize));
                if front.contains(j as usize) {
                    let w = choose|w: int| 0 <= w < front.len() && front[w] == j as usize;
                    assert(s[w] == s[t]);
                }
            } else {
                if s.contains(j as usize) {
                    let w = choose|w: int| 0 <= w < s.len() && s[w] == j as usize;
                    assert(w != t);
                    assert(front[w] == j as usize);
                }
                if front.contains(j as usize) {
                    let w = choose|w: int| 0 <= w < front.len() && front[w] == j as usize;
                    assert(s[w] == j as usize);
                }
            }
        }
        lemma_row_add(front_picked, single, picked, i, hi);
        lemma_row_single(single, i, e, hi);
        lemma_pick_is_restricted_row(g, front_picked, i, front, hi);
        assert(pick_sum(g, i, front, t) == pick_sum(g, i, s, t)) by {
            lemma_pick_prefix(g, i, s, front, t);
        }
    }
}

/// Picking from a prefix of `s` agrees with picking from `s`.
proof fn lemma_pick_prefix(g: spec_fn(int, int) -> int, i: int, s: Seq<usize>, p: Seq<usize>, t: int)
    requires
        0 <= t <= p.len(),
        p.len() <= s.len(),
        forall|w: int| 0 <= w < p.len() ==> #[trigger] p[w] == s[w],
    ensures
        pick_sum(g, i, p, t) == pick_sum(g, i, s, t),
    decreases t,
{
    if t > 0 {
        lemma_pick_prefix(g, i, s, p, t - 1);
    }
}

/// Picking terms between zero and one sums to at most the number picked.
pub proof fn lemma_pick_bounded(g: spec_fn(int, int) -> int, i: int, s: Seq<usize>, t: int)
    requires
        0 <= t <= s.len(),
        forall|w: int| 0 <= w < t ==> 0 <= #[trigger] g(i, s[w] as int) <= 1,
    ensures
        0 <= pick_sum(g, i, s, t) <= t,
    decreases t,
{
    if t > 0 {
        lemma_pick_bounded(g, i, s, t - 1);
    }
}

} // verus!
