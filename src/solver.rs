//! The two solvers: a recursive one that runs to the end, and a resumable one
//! that makes one decision per call.

use vstd::prelude::*;
use crate::board::{
    board_ok, dfs, fills_fit, first_empty, first_fit, in_bounds, index_of, lemma_candidate_at,
    lemma_candidate_ignores, lemma_dfs_result, lemma_fill_first_empty, lemma_first_empty,
    lemma_search_exact, lemma_search_starts_at_first_empty, next_digit, one_cell_apart,
    rows_cols_distinct, search, solves, valid_completion,
};
use crate::search_state::{
    lemma_searching_advance, lemma_searching_back, lemma_searching_full, lemma_searching_start,
    positions, remaining, searching,
};
use crate::grid::Grid;

verus! {

/// Solves `grid` by depth-first backtracking: cells in row-major order,
/// digits in ascending order.
///
/// Returns true when a solution was found, and leaves it in `grid`; returns
/// false otherwise, with `grid` as it was.
pub fn solve(grid: &mut Grid) -> (r: bool)
    requires
        old(grid).wf(),
    ensures
        final(grid).wf(),
        r == (search(old(grid)@) is Some),
        r ==> search(old(grid)@) == Some(final(grid)@),
        r ==> valid_completion(final(grid)@, old(grid)@),
        r && rows_cols_distinct(old(grid)@) ==> solves(final(grid)@, old(grid)@),
        !r ==> final(grid)@ == old(grid)@,
        !r ==> forall|h: Seq<Option<u32>>| !valid_completion(h, old(grid)@),
    decreases 81 - first_empty(old(grid)@),
{
    let ghost g0 = grid@;
    proof {
        lemma_first_empty(g0);
        lemma_search_starts_at_first_empty(g0);
        lemma_search_exact(g0);
        lemma_dfs_result(g0, 0, 1, g0);
    }
    if let Some(cell) = grid.get_empty_cell() {
        let ghost p = index_of(cell);
        for n in 1..10u32
            invariant
                grid.wf(),
                grid@ == g0,
                old(grid)@ == g0,
                in_bounds(cell),
                p == index_of(cell),
                p == first_empty(g0),
                p < 81,
                g0.len() == 81,
                g0[p] is None,
                search(g0) == dfs(g0, p, n),
        {
            proof {
                lemma_candidate_at(g0, cell, n);
            }
            if grid.check_num(cell, n) {
                grid.set(cell, n);
                proof {
                    lemma_fill_first_empty(g0, p, n);
                }
                if solve(grid) {
                    proof {
                        assert(dfs(g0, p, n) == dfs(g0.update(p, Some(n)), p + 1, 1));
                        lemma_search_exact(g0);
                        lemma_dfs_result(g0, 0, 1, g0);
                    }
                    return true;
                }
                grid.unset(cell);
                proof {
                    assert(grid@ =~= g0);
                }
            }
        }
        proof {
            lemma_search_exact(g0);
        }
        return false;
    }
    true
}

/// Outcome of one call of [`StepSolver::solve_step`].
#[derive(Clone, Copy, Debug, PartialEq, Eq, Structural)]
pub enum StepResult {
    /// A digit was placed or taken back; the search goes on.
    InProgress,
    /// The board is full: the search has found its solution.
    Solved,
    /// Every possibility has been tried: the puzzle has no solution.
    Unsatisfiable,
}

/// One decision of the search, from stack `st` over board `b` to stack `st2`
/// over board `b2` with outcome `r`. At the last stacked cell `c`, the least
/// digit that fits, from the one after the digit `c` holds, is placed; then
/// the next empty cell is stacked, or, when there is none, the board is
/// solved. When no digit fits, `c` is emptied and dropped from the stack; an
/// empty stack means the puzzle has no solution.
pub open spec fn one_step(
    st: Seq<[usize; 2]>,
    b: Seq<Option<u32>>,
    st2: Seq<[usize; 2]>,
    b2: Seq<Option<u32>>,
    r: StepResult,
) -> bool {
    let c = st.last();
    let p = index_of(c);
    let n0 = first_fit(b, c, next_digit(b[p]));
    if n0 <= 9 {
        &&& b2 == b.update(p, Some(n0))
        &&& if first_empty(b2) == 81 {
            r == StepResult::Solved && st2 == st
        } else {
            &&& r == StepResult::InProgress
            &&& st2.len() == st.len() + 1
            &&& st2.drop_last() == st
            &&& in_bounds(st2.last())
            &&& index_of(st2.last()) == first_empty(b2)
        }
    } else {
        &&& b2 == b.update(p, None)
        &&& st2 == st.drop_last()
        &&& if st2.len() == 0 {
            r == StepResult::Unsatisfiable
        } else {
            r == StepResult::InProgress
        }
    }
}

/// Backtracking search that can be driven one decision at a time.
///
/// The stack holds the cells committed to on the current branch, the last
/// being the one under trial; each cell's digit on the board tells how far
/// its trial has come. The board must not be changed by anyone else between
/// calls.
pub struct StepSolver {
    stack: Vec<[usize; 2]>,
    solved: bool,
    origin: Ghost<Seq<Option<u32>>>,
}

impl StepSolver {
    /// The board the search started from.
    pub closed spec fn origin(&self) -> Seq<Option<u32>> {
        self.origin@
    }

    /// The stacked cells, the last being the one under trial.
    pub closed spec fn stack(&self) -> Seq<[usize; 2]> {
        self.stack@
    }

    /// Whether the search has reached a full board.
    pub closed spec fn is_solved(&self) -> bool {
        self.solved
    }

    /// The search is over: it has found its board, or nothing is left to try.
    pub closed spec fn is_finished(&self) -> bool {
        self.solved || self.stack@.len() == 0
    }

    /// A bound on the number of decisions left, from board `b`.
    pub closed spec fn progress(&self, b: Seq<Option<u32>>) -> nat {
        if self.is_finished() {
            0
        } else {
            remaining(b, positions(self.stack@))
        }
    }

    /// The state of the search agrees with board `b`: continuing the search
    /// from here yields what searching the starting board yields.
    pub closed spec fn inv(&self, b: Seq<Option<u32>>) -> bool {
        &&& board_ok(b)
        &&& board_ok(self.origin@)
        &&& if self.solved {
            search(self.origin@) == Some(b)
        } else {
            searching(self.stack@, self.origin@, b)
        }
    }

    /// Starts a search on `grid`, at its first empty cell.
    pub fn new(grid: &Grid) -> (r: StepSolver)
        requires
            grid.wf(),
            first_empty(grid@) < 81,
        ensures
            r.origin() == grid@,
            r.inv(grid@),
            !r.is_solved(),
            r.stack().len() == 1,
            in_bounds(r.stack()[0]),
            index_of(r.stack()[0]) == first_empty(grid@),
    {
        let mut solver = StepSolver { stack: Vec::new(), solved: false, origin: Ghost(grid@) };
        let cell = grid.get_empty_cell().unwrap();
        solver.stack.push(cell);
        proof {
            lemma_searching_start(grid@, cell);
            assert(solver.stack@ =~= seq![cell]);
        }
        solver
    }

    /// Makes one decision of the search on `grid`: places the next digit
    /// that fits at the cell under trial and moves on to the next empty
    /// cell, or, when no digit is left, empties that cell and goes back to
    /// the one before.
    #[verifier::loop_isolation(false)]
    pub fn solve_step(&mut self, grid: &mut Grid) -> (r: StepResult)
        requires
            old(grid).wf(),
            old(self).inv(old(grid)@),
        ensures
            final(grid).wf(),
            final(self).origin() == old(self).origin(),
            final(self).inv(final(grid)@),
            r == StepResult::Solved ==> search(old(self).origin()) == Some(final(grid)@),
            r == StepResult::Unsatisfiable ==> search(old(self).origin()) is None
                && final(grid)@ == old(self).origin(),
            r == StepResult::InProgress ==> !old(self).is_finished() && final(self).progress(
                final(grid)@,
            ) < old(self).progress(old(grid)@),
            r != StepResult::InProgress ==> final(self).is_finished(),
            one_cell_apart(old(grid)@, final(grid)@),
            old(self).is_finished() ==> final(grid)@ == old(grid)@,
            old(self).is_solved() ==> r == StepResult::Solved && final(self).stack() == old(
                self,
            ).stack(),
            !old(self).is_solved() && old(self).stack().len() == 0 ==> r
                == StepResult::Unsatisfiable && final(self).stack() == old(self).stack(),
            !old(self).is_solved() && old(self).stack().len() > 0 ==> one_step(
                old(self).stack(),
                old(grid)@,
                final(self).stack(),
                final(grid)@,
                r,
            ),
            r == StepResult::Solved ==> final(self).is_solved(),
            r == StepResult::Solved ==> valid_completion(final(grid)@, old(self).origin()),
            fills_fit(final(grid)@, old(self).origin()),
            r == StepResult::InProgress ==> !final(self).is_finished(),
    {
        proof {
            assert(grid@ =~= grid@.update(0, grid@[0]));
            lemma_search_exact(self.origin@);
        }
        if self.solved {
            return StepResult::Solved;
        }
        if self.stack.len() == 0 {
            proof {
                assert(grid@ =~= self.origin@);
            }
            return StepResult::Unsatisfiable;
        }
        let ghost g = grid@;
        let ghost st = self.stack@;
        let cell_pos = self.stack[self.stack.len() - 1];
        let ghost p = index_of(cell_pos);
        let ghost base = g.update(p, None);
        let mut start: u32 = 1;
        if let Some(val) = grid.get_value(cell_pos) {
            start = val + 1;
        }
        proof {
            assert(cell_pos == st.last());
            assert(in_bounds(st[st.len() - 1]));
            assert(start == next_digit(g[p]));
        }
        let mut n: u32 = start;
        while n <= 9
            invariant
                grid.wf(),
                grid@ == g,
                board_ok(g),
                in_bounds(cell_pos),
                p == index_of(cell_pos),
                0 <= p < 81,
                base == g.update(p, None),
                1 <= start <= n <= 10,
                old(self).stack@ == st,
                old(grid)@ == g,
                !old(self).solved,
                start == next_digit(g[p]),
                dfs(base, p, start) == dfs(base, p, n),
                first_fit(g, cell_pos, start) == first_fit(g, cell_pos, n),
                !self.solved,
                self.stack@ == st,
                self.origin == old(self).origin,
                st.len() > 0,
                cell_pos == st.last(),
                searching(st, self.origin@, g),
            decreases 10 - n,
        {
            proof {
                lemma_candidate_at(g, cell_pos, n);
                lemma_candidate_ignores(g, p, g[p], None, p, n);
                assert(g.update(p, g[p]) =~= g);
            }
            if grid.check_num(cell_pos, n) {
                grid.set(cell_pos, n);
                proof {
                    assert(grid@ =~= g.update(p, grid@[p]));
                }
                if let Some(cell) = grid.get_empty_cell() {
                    proof {
                        lemma_searching_advance(st, self.origin@, g, n, cell);
                    }
                    self.stack.push(cell);
                    proof {
                        assert(self.stack@.drop_last() =~= st);
                    }
                    return StepResult::InProgress;
                }
                proof {
                    lemma_searching_full(st, self.origin@, g, n);
                }
                self.solved = true;
                return StepResult::Solved;
            }
            n = n + 1;
        }
        proof {
            lemma_searching_back(st, self.origin@, g);
        }
        grid.unset(cell_pos);
        self.stack.pop();
        proof {
            assert(grid@ =~= g.update(p, grid@[p]));
        }
        if self.stack.len() == 0 {
            return StepResult::Unsatisfiable;
        }
        StepResult::InProgress
    }

    /// Makes decisions until the search is over, and tells how it ended:
    /// with the board that plain backtracking search finds, or with no
    /// solution and the board as the search started from it.
    pub fn finish(&mut self, grid: &mut Grid) -> (r: StepResult)
        requires
            old(grid).wf(),
            old(self).inv(old(grid)@),
        ensures
            final(grid).wf(),
            final(self).origin() == old(self).origin(),
            final(self).inv(final(grid)@),
            r == StepResult::Solved <==> search(old(self).origin()) is Some,
            r == StepResult::Solved ==> search(old(self).origin()) == Some(final(grid)@),
            r == StepResult::Unsatisfiable ==> final(grid)@ == old(self).origin(),
            r == StepResult::Solved ==> valid_completion(final(grid)@, old(self).origin()),
            r == StepResult::Unsatisfiable <==> forall|h: Seq<Option<u32>>| !valid_completion(
                h,
                old(self).origin(),
            ),
            r != StepResult::InProgress,
    {
        loop
            invariant
                grid.wf(),
                self.origin() == old(self).origin(),
                self.inv(grid@),
            decreases self.progress(grid@),
        {
            let r = self.solve_step(grid);
            if r != StepResult::InProgress {
                proof {
                    lemma_search_exact(self.origin@);
                }
                return r;
            }
        }
    }
}

} // verus!
