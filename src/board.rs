//! The mathematical model of a board: a sequence of 81 optional digits in
//! row-major order, the rules on it, and the depth-first search over it.

use vstd::prelude::*;

verus! {

/// A digit a cell may hold.
pub open spec fn valid_digit(n: u32) -> bool {
    1 <= n <= 9
}

/// A cell value is empty or a digit from 1 to 9.
pub open spec fn cell_ok(v: Option<u32>) -> bool {
    match v {
        Some(n) => valid_digit(n),
        None => true,
    }
}

/// 81 cells, each empty or a digit.
pub open spec fn board_ok(b: Seq<Option<u32>>) -> bool {
    &&& b.len() == 81
    &&& forall|i: int| 0 <= i < 81 ==> cell_ok(#[trigger] b[i])
}

/// Coordinates (column, row) that lie on the board.
pub open spec fn in_bounds(c: [usize; 2]) -> bool {
    c[0] < 9 && c[1] < 9
}

/// Row-major position of the coordinates (column, row).
pub open spec fn index_of(c: [usize; 2]) -> int {
    c[0] + 9 * c[1]
}

/// The cell at column `x` and row `y`.
pub open spec fn at(b: Seq<Option<u32>>, x: int, y: int) -> Option<u32> {
    b[x + 9 * y]
}

/// `n` occurs neither in column `x` nor in row `y`.
pub open spec fn candidate_ok(b: Seq<Option<u32>>, x: int, y: int, n: u32) -> bool {
    forall|k: int|
        #![trigger at(b, x, k)]
        #![trigger at(b, k, y)]
        0 <= k < 9 ==> at(b, x, k) != Some(n) && at(b, k, y) != Some(n)
}

/// The rule checked at the cell with row-major position `p`.
pub open spec fn candidate_at(b: Seq<Option<u32>>, p: int, n: u32) -> bool {
    candidate_ok(b, p % 9, p / 9, n)
}

/// Position of the first empty cell at or after `j`, or 81 if there is none.
pub open spec fn first_empty_from(b: Seq<Option<u32>>, j: int) -> int
    decreases 81 - j,
{
    if j >= 81 {
        81
    } else if b[j] is None {
        j
    } else {
        first_empty_from(b, j + 1)
    }
}

/// Position of the first empty cell in row-major order, or 81 if the board is full.
pub open spec fn first_empty(b: Seq<Option<u32>>) -> int {
    first_empty_from(b, 0)
}

/// The character that shows digit `n`.
pub open spec fn digit_char(n: u32) -> char {
    seq!['1', '2', '3', '4', '5', '6', '7', '8', '9'][n - 1]
}

/// A cell as text: its digit, or nothing.
pub open spec fn cell_text(v: Option<u32>) -> Seq<char> {
    match v {
        Some(n) => seq![digit_char(n)],
        None => Seq::empty(),
    }
}

/// Depth-first search from position `p`, trying digits from `n` upward at the
/// first empty cell found there, and moving on to the next cell after each
/// placement. Cells before `p` are taken to be filled. Gives the first full
/// board reached, or `None` when every branch fails.
pub open spec fn dfs(b: Seq<Option<u32>>, p: int, n: u32) -> Option<Seq<Option<u32>>>
    decreases 81 - p, 10 - n,
{
    if p >= 81 || p < 0 {
        Some(b)
    } else if b[p] is Some {
        dfs(b, p + 1, 1)
    } else if n > 9 || n < 1 {
        None
    } else if candidate_at(b, p, n) {
        match dfs(b.update(p, Some(n)), p + 1, 1) {
            Some(r) => Some(r),
            None => dfs(b, p, (n + 1) as u32),
        }
    } else {
        dfs(b, p, (n + 1) as u32)
    }
}

/// The board that backtracking search (cells in row-major order, digits in
/// ascending order) reaches first, or `None` if there is none.
pub open spec fn search(b: Seq<Option<u32>>) -> Option<Seq<Option<u32>>> {
    dfs(b, 0, 1)
}

/// First digit still to try at a cell that holds `v`: one past the digit it
/// holds, or 1 when it is empty.
pub open spec fn next_digit(v: Option<u32>) -> u32 {
    match v {
        Some(d) => (d + 1) as u32,
        None => 1,
    }
}

/// What backtracking search yields when it is resumed with the cells at
/// positions `s` committed in that order, the last of them being tried: the
/// last cell goes on from the digit after the one it holds; when its digits
/// run out it is emptied and the cell before it goes on in the same way.
pub open spec fn resume(b: Seq<Option<u32>>, s: Seq<int>) -> Option<Seq<Option<u32>>>
    decreases s.len(),
{
    if s.len() == 0 {
        None
    } else {
        let p = s.last();
        let base = b.update(p, None);
        match dfs(base, p, next_digit(b[p])) {
            Some(r) => Some(r),
            None => resume(base, s.drop_last()),
        }
    }
}

/// The least digit from `n` to 9 that passes the rule at cell `c`, or 10 if
/// there is none.
pub open spec fn first_fit(b: Seq<Option<u32>>, c: [usize; 2], n: u32) -> u32
    decreases 10 - n,
{
    if n > 9 {
        10
    } else if candidate_ok(b, c[0] as int, c[1] as int, n) {
        n
    } else {
        first_fit(b, c, (n + 1) as u32)
    }
}

/// No digit occurs twice in a column or twice in a row.
pub open spec fn rows_cols_distinct(r: Seq<Option<u32>>) -> bool {
    &&& forall|x: int, y1: int, y2: int|
        0 <= x < 9 && 0 <= y1 < 9 && 0 <= y2 < 9 && y1 != y2 && at(r, x, y1) is Some
            ==> #[trigger] at(r, x, y1) != #[trigger] at(r, x, y2)
    &&& forall|y: int, x1: int, x2: int|
        0 <= y < 9 && 0 <= x1 < 9 && 0 <= x2 < 9 && x1 != x2 && at(r, x1, y) is Some
            ==> #[trigger] at(r, x1, y) != #[trigger] at(r, x2, y)
}

/// `r` solves `b`: a full board of digits that keeps the digits of `b` and
/// has no digit twice in a row or in a column.
pub open spec fn solves(r: Seq<Option<u32>>, b: Seq<Option<u32>>) -> bool {
    &&& board_ok(r)
    &&& is_full(r)
    &&& extends(r, b)
    &&& rows_cols_distinct(r)
}

/// Each cell that is empty in `b` and holds a digit in `r` holds one found
/// nowhere else in its column or its row in `r`.
pub open spec fn fills_fit(r: Seq<Option<u32>>, b: Seq<Option<u32>>) -> bool {
    forall|x: int, y: int, k: int|
        #![trigger at(r, x, k), at(b, x, y)]
        #![trigger at(r, k, y), at(b, x, y)]
        0 <= x < 9 && 0 <= y < 9 && 0 <= k < 9 && at(b, x, y) is None && at(r, x, y) is Some
            ==> (k != y ==> at(r, x, k) != at(r, x, y)) && (k != x ==> at(r, k, y) != at(r, x, y))
}

/// `r` completes `b`: a full board of digits that keeps the digits of `b`
/// and fills each empty cell of `b` with a digit found nowhere else in its
/// row or its column.
pub open spec fn valid_completion(r: Seq<Option<u32>>, b: Seq<Option<u32>>) -> bool {
    &&& board_ok(r)
    &&& is_full(r)
    &&& extends(r, b)
    &&& fills_fit(r, b)
}

/// `b` is `a` with at most one cell changed.
pub open spec fn one_cell_apart(a: Seq<Option<u32>>, b: Seq<Option<u32>>) -> bool {
    exists|i: int| 0 <= i < 81 && b == #[trigger] a.update(i, b[i])
}

/// Every cell is filled.
pub open spec fn is_full(b: Seq<Option<u32>>) -> bool {
    forall|i: int| 0 <= i < 81 ==> (#[trigger] b[i]) is Some
}

/// `r` keeps every digit that `b` holds.
pub open spec fn extends(r: Seq<Option<u32>>, b: Seq<Option<u32>>) -> bool {
    &&& r.len() == b.len()
    &&& forall|i: int| 0 <= i < b.len() && (#[trigger] b[i]) is Some ==> r[i] == b[i]
}

/// The scan for an empty cell from `j` passes only filled cells and stops at
/// an empty one or at the end.
pub proof fn lemma_first_empty_from(b: Seq<Option<u32>>, j: int)
    requires
        b.len() == 81,
        0 <= j <= 81,
    ensures
        j <= first_empty_from(b, j) <= 81,
        forall|i: int| j <= i < first_empty_from(b, j) ==> (#[trigger] b[i]) is Some,
        first_empty_from(b, j) < 81 ==> b[first_empty_from(b, j)] is None,
    decreases 81 - j,
{
    if j < 81 && b[j] is Some {
        lemma_first_empty_from(b, j + 1);
    }
}

/// Facts about the first empty cell of a board.
pub proof fn lemma_first_empty(b: Seq<Option<u32>>)
    requires
        b.len() == 81,
    ensures
        0 <= first_empty(b) <= 81,
        forall|i: int| 0 <= i < first_empty(b) ==> (#[trigger] b[i]) is Some,
        first_empty(b) < 81 ==> b[first_empty(b)] is None,
{
    lemma_first_empty_from(b, 0);
}

/// Search passes over filled cells unchanged.
pub proof fn lemma_dfs_skip(b: Seq<Option<u32>>, p: int, q: int)
    requires
        0 <= p <= q <= 81,
        b.len() == 81,
        forall|i: int| p <= i < q ==> (#[trigger] b[i]) is Some,
    ensures
        dfs(b, p, 1) == dfs(b, q, 1),
    decreases q - p,
{
    if p < q {
        lemma_dfs_skip(b, p + 1, q);
    }
}

/// Search on a board starts at its first empty cell.
pub proof fn lemma_search_starts_at_first_empty(b: Seq<Option<u32>>)
    requires
        b.len() == 81,
    ensures
        search(b) == dfs(b, first_empty(b), 1),
{
    lemma_first_empty(b);
    lemma_dfs_skip(b, 0, first_empty(b));
}

/// After the first empty cell `p` is filled, search on the new board goes on
/// from the position after `p`, and the next empty cell lies beyond `p`.
pub proof fn lemma_fill_first_empty(b: Seq<Option<u32>>, p: int, n: u32)
    requires
        b.len() == 81,
        p == first_empty(b),
        p < 81,
    ensures
        search(b.update(p, Some(n))) == dfs(b.update(p, Some(n)), p + 1, 1),
        p < first_empty(b.update(p, Some(n))) <= 81,
{
    let c = b.update(p, Some(n));
    lemma_first_empty(b);
    assert forall|i: int| 0 <= i < p + 1 implies (#[trigger] c[i]) is Some by {
        if i < p {
            assert(b[i] is Some);
        }
    }
    lemma_dfs_skip(c, 0, p + 1);
    lemma_first_empty(c);
    if first_empty(c) <= p {
        assert(c[first_empty(c)] is Some);
    }
}

/// The rule at a row-major position is the rule at its column and row.
pub proof fn lemma_candidate_at(b: Seq<Option<u32>>, c: [usize; 2], n: u32)
    requires
        in_bounds(c),
    ensures
        candidate_at(b, index_of(c), n) == candidate_ok(b, c[0] as int, c[1] as int, n),
{
    let x = c[0] as int;
    let y = c[1] as int;
    assert((x + 9 * y) % 9 == x && (x + 9 * y) / 9 == y) by (nonlinear_arith)
        requires
            0 <= x < 9,
            0 <= y < 9,
    ;
}

/// The first empty cell is the one before which every cell is filled.
pub proof fn lemma_first_empty_is(b: Seq<Option<u32>>, p: int)
    requires
        b.len() == 81,
        0 <= p < 81,
        b[p] is None,
        forall|i: int| 0 <= i < p ==> (#[trigger] b[i]) is Some,
    ensures
        first_empty(b) == p,
{
    lemma_first_empty(b);
    if first_empty(b) < p {
        assert(b[first_empty(b)] is Some);
    }
}

/// The rule for `n` does not see what a cell holds, as long as it is not `n`.
pub proof fn lemma_candidate_ignores(b: Seq<Option<u32>>, i: int, v: Option<u32>, w: Option<u32>, p: int, n: u32)
    requires
        b.len() == 81,
        0 <= i < 81,
        0 <= p < 81,
        v != Some(n),
        w != Some(n),
    ensures
        candidate_at(b.update(i, v), p, n) == candidate_at(b.update(i, w), p, n),
{
    let x = p % 9;
    let y = p / 9;
    let bv = b.update(i, v);
    let bw = b.update(i, w);
    assert forall|k: int| 0 <= k < 9 implies
        (at(bv, x, k) == Some(n) <==> at(bw, x, k) == Some(n))
        && (at(bv, k, y) == Some(n) <==> at(bw, k, y) == Some(n)) by {
        assert(0 <= x + 9 * k < 81);
        assert(0 <= k + 9 * y < 81);
    }
}

/// Placing a digit that passes the rule keeps rows and columns free of
/// repeated digits.
proof fn lemma_place_keeps_distinct(b: Seq<Option<u32>>, p: int, n: u32)
    requires
        board_ok(b),
        0 <= p < 81,
        b[p] is None,
        candidate_at(b, p, n),
        rows_cols_distinct(b),
    ensures
        rows_cols_distinct(b.update(p, Some(n))),
{
    let c = b.update(p, Some(n));
    let x0 = p % 9;
    let y0 = p / 9;
    assert(p == x0 + 9 * y0 && 0 <= x0 < 9 && 0 <= y0 < 9) by (nonlinear_arith)
        requires
            0 <= p < 81,
            x0 == p % 9,
            y0 == p / 9,
    ;
    assert forall|x: int, y1: int, y2: int|
        0 <= x < 9 && 0 <= y1 < 9 && 0 <= y2 < 9 && y1 != y2 && at(c, x, y1) is Some implies
        #[trigger] at(c, x, y1) != #[trigger] at(c, x, y2) by {
        if x + 9 * y1 == p {
            assert(x == x0 && y1 == y0);
            assert(at(b, x0, y2) != Some(n));
        } else if x + 9 * y2 == p {
            assert(x == x0 && y2 == y0);
            assert(at(b, x0, y1) != Some(n));
        } else {
            assert(at(b, x, y1) != at(b, x, y2));
        }
    }
    assert forall|y: int, x1: int, x2: int|
        0 <= y < 9 && 0 <= x1 < 9 && 0 <= x2 < 9 && x1 != x2 && at(c, x1, y) is Some implies
        #[trigger] at(c, x1, y) != #[trigger] at(c, x2, y) by {
        if x1 + 9 * y == p {
            assert(x1 == x0 && y == y0);
            assert(at(b, x2, y0) != Some(n));
        } else if x2 + 9 * y == p {
            assert(x2 == x0 && y == y0);
            assert(at(b, x1, y0) != Some(n));
        } else {
            assert(at(b, x1, y) != at(b, x2, y));
        }
    }
}

/// Emptying a cell keeps the placed digits fitting.
pub proof fn lemma_unset_keeps_fit(b0: Seq<Option<u32>>, c: Seq<Option<u32>>, p: int)
    requires
        c.len() == 81,
        0 <= p < 81,
        fills_fit(c, b0),
    ensures
        fills_fit(c.update(p, None), b0),
{
    let d = c.update(p, None);
    assert forall|x: int, y: int, k: int|
        0 <= x < 9 && 0 <= y < 9 && 0 <= k < 9 && at(b0, x, y) is None && at(d, x, y) is Some
            implies (k != y ==> #[trigger] at(d, x, k) != at(d, x, y)) && (k != x ==> #[trigger] at(
            d,
            k,
            y,
        ) != at(d, x, y)) by {
        assert(at(c, x, y) is Some);
        if k != y && x + 9 * k != p {
            assert(at(c, x, k) != at(c, x, y));
        }
        if k != x && k + 9 * y != p {
            assert(at(c, k, y) != at(c, x, y));
        }
    }
}

/// Placing a digit that passes the rule keeps the placed digits fitting.
pub proof fn lemma_place_keeps_fit(b0: Seq<Option<u32>>, c: Seq<Option<u32>>, p: int, n: u32)
    requires
        c.len() == 81,
        0 <= p < 81,
        c[p] is None,
        candidate_at(c, p, n),
        fills_fit(c, b0),
    ensures
        fills_fit(c.update(p, Some(n)), b0),
{
    let d = c.update(p, Some(n));
    let x0 = p % 9;
    let y0 = p / 9;
    assert(p == x0 + 9 * y0 && 0 <= x0 < 9 && 0 <= y0 < 9) by (nonlinear_arith)
        requires
            0 <= p < 81,
            x0 == p % 9,
            y0 == p / 9,
    ;
    assert forall|x: int, y: int, k: int|
        0 <= x < 9 && 0 <= y < 9 && 0 <= k < 9 && at(b0, x, y) is None && at(d, x, y) is Some
            implies (k != y ==> #[trigger] at(d, x, k) != at(d, x, y)) && (k != x ==> #[trigger] at(
            d,
            k,
            y,
        ) != at(d, x, y)) by {
        if x + 9 * y == p {
            assert(x == x0 && y == y0);
            assert(at(c, x0, k) != Some(n));
            assert(at(c, k, y0) != Some(n));
        } else {
            assert(at(c, x, y) is Some);
            if k != y {
                if x + 9 * k == p {
                    assert(x == x0 && k == y0);
                    assert(at(c, x0, y) != Some(n));
                } else {
                    assert(at(c, x, k) != at(c, x, y));
                }
            }
            if k != x {
                if k + 9 * y == p {
                    assert(k == x0 && y == y0);
                    assert(at(c, x, y0) != Some(n));
                } else {
                    assert(at(c, k, y) != at(c, x, y));
                }
            }
        }
    }
}

/// What search yields is a full board that keeps every digit it started from.
pub proof fn lemma_dfs_result(b: Seq<Option<u32>>, p: int, n: u32, b0: Seq<Option<u32>>)
    requires
        board_ok(b),
        0 <= p,
        forall|i: int| 0 <= i < p && i < 81 ==> (#[trigger] b[i]) is Some,
        extends(b, b0),
        fills_fit(b, b0),
    ensures
        dfs(b, p, n) is Some ==> {
            let r = dfs(b, p, n)->Some_0;
            &&& board_ok(r)
            &&& is_full(r)
            &&& extends(r, b)
            &&& valid_completion(r, b0)
            &&& rows_cols_distinct(b) ==> rows_cols_distinct(r)
        },
    decreases 81 - p, 10 - n,
{
    if p >= 81 {
    } else if b[p] is Some {
        lemma_dfs_result(b, p + 1, 1, b0);
    } else if n > 9 || n < 1 {
    } else {
        let c = b.update(p, Some(n));
        if candidate_at(b, p, n) {
            assert forall|i: int| 0 <= i < 81 implies cell_ok(#[trigger] c[i]) by {
                assert(cell_ok(b[i]));
            }
            assert forall|i: int| 0 <= i < p + 1 && i < 81 implies (#[trigger] c[i]) is Some by {
                if i < p {
                    assert(b[i] is Some);
                }
            }
            if rows_cols_distinct(b) {
                lemma_place_keeps_distinct(b, p, n);
            }
            lemma_place_keeps_fit(b0, b, p, n);
            assert forall|i: int| 0 <= i < b0.len() && (#[trigger] b0[i]) is Some implies c[i]
                == b0[i] by {
                assert(b[i] == b0[i]);
            }
            lemma_dfs_result(c, p + 1, 1, b0);
            if dfs(c, p + 1, 1) is Some {
                let r = dfs(c, p + 1, 1)->Some_0;
                assert forall|i: int| 0 <= i < b.len() && (#[trigger] b[i]) is Some implies r[i]
                    == b[i] by {
                    assert(c[i] == b[i]);
                }
            }
        }
        lemma_dfs_result(b, p, (n + 1) as u32, b0);
    }
}

/// The digit that a solution puts in an empty cell passes the rule there.
proof fn lemma_solution_digit_fits(b: Seq<Option<u32>>, p: int, r: Seq<Option<u32>>)
    requires
        board_ok(b),
        0 <= p < 81,
        b[p] is None,
        valid_completion(r, b),
    ensures
        candidate_at(b, p, r[p]->Some_0),
{
    let x = p % 9;
    let y = p / 9;
    let d = r[p]->Some_0;
    assert(p == x + 9 * y && 0 <= x < 9 && 0 <= y < 9) by (nonlinear_arith)
        requires
            0 <= p < 81,
            x == p % 9,
            y == p / 9,
    ;
    assert(r[p] is Some);
    assert forall|k: int| 0 <= k < 9 implies at(b, x, k) != Some(d) && at(b, k, y) != Some(d) by {
        if at(b, x, k) == Some(d) {
            assert(b[x + 9 * k] is Some);
            assert(r[x + 9 * k] == b[x + 9 * k]);
            assert(at(r, x, k) == Some(d));
            assert(at(r, x, y) == Some(d));
            assert(at(b, x, y) is None);
        }
        if at(b, k, y) == Some(d) {
            assert(b[k + 9 * y] is Some);
            assert(r[k + 9 * y] == b[k + 9 * y]);
            assert(at(r, k, y) == Some(d));
            assert(at(r, x, y) == Some(d));
            assert(at(b, x, y) is None);
        }
    }
}

/// Search from `p` finds a board whenever a solution exists whose digit at
/// `p`, if `p` is empty, is not below `n`.
pub proof fn lemma_dfs_complete(b: Seq<Option<u32>>, p: int, n: u32, r: Seq<Option<u32>>)
    requires
        board_ok(b),
        0 <= p,
        valid_completion(r, b),
        p < 81 && b[p] is None ==> 1 <= n <= r[p]->Some_0,
    ensures
        dfs(b, p, n) is Some,
    decreases 81 - p, 10 - n,
{
    if p >= 81 {
    } else if b[p] is Some {
        if p + 1 < 81 {
            assert(r[p + 1] is Some && cell_ok(r[p + 1]));
        }
        lemma_dfs_complete(b, p + 1, 1, r);
    } else {
        let d = r[p]->Some_0;
        assert(r[p] is Some && cell_ok(r[p]));
        lemma_solution_digit_fits(b, p, r);
        if n == d {
            let c = b.update(p, Some(n));
            assert forall|i: int| 0 <= i < 81 implies cell_ok(#[trigger] c[i]) by {
                assert(cell_ok(b[i]));
            }
            assert forall|i: int| 0 <= i < c.len() && (#[trigger] c[i]) is Some implies r[i]
                == c[i] by {
                if i != p {
                    assert(c[i] == b[i]);
                }
            }
            if p + 1 < 81 {
                assert(r[p + 1] is Some && cell_ok(r[p + 1]));
            }
            assert forall|x: int, y: int, k: int|
                0 <= x < 9 && 0 <= y < 9 && 0 <= k < 9 && at(c, x, y) is None && at(r, x, y)
                    is Some implies (k != y ==> #[trigger] at(r, x, k) != at(r, x, y)) && (k != x
                ==> #[trigger] at(r, k, y) != at(r, x, y)) by {
                assert(at(b, x, y) is None);
            }
            lemma_dfs_complete(c, p + 1, 1, r);
        } else {
            lemma_dfs_complete(b, p, (n + 1) as u32, r);
        }
    }
}

/// Search is exact: what it finds completes the board, and when it finds
/// nothing, no completion exists.
pub proof fn lemma_search_exact(b: Seq<Option<u32>>)
    requires
        board_ok(b),
    ensures
        search(b) is Some ==> valid_completion(search(b)->Some_0, b),
        search(b) is None ==> forall|h: Seq<Option<u32>>| !valid_completion(h, b),
{
    assert(fills_fit(b, b));
    lemma_dfs_result(b, 0, 1, b);
    assert forall|h: Seq<Option<u32>>| search(b) is None implies !valid_completion(h, b) by {
        if valid_completion(h, b) {
            assert(h[0] is Some && cell_ok(h[0]));
            lemma_dfs_complete(b, 0, 1, h);
        }
    }
}

} // verus!
