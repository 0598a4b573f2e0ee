//! The 9×9 board: cells, coordinate access and the row/column rule.

use vstd::prelude::*;
use crate::board::{
    at, board_ok, candidate_ok, cell_ok, cell_text, digit_char, first_empty, first_empty_from,
    in_bounds, index_of,
};

verus! {

/// Width and height of the board.
pub const SIZE: usize = 9;

/// One square of the board: a digit from 1 to 9, or nothing.
#[derive(Copy, Clone, Debug)]
pub struct Cell {
    /// The digit held by the cell, if any.
    pub value: Option<u32>,
}

impl Cell {
    /// Creates a cell holding `value`.
    pub fn new(value: Option<u32>) -> (r: Cell)
        ensures
            r.value == value,
    {
        Cell { value }
    }
}

/// The board, stored row after row: the cell at column `x` and row `y`
/// is `cells[x + 9 * y]`.
#[derive(Clone, Debug)]
pub struct Grid {
    /// All 81 cells, row-major.
    pub cells: Vec<Cell>,
}

impl View for Grid {
    type V = Seq<Option<u32>>;

    open spec fn view(&self) -> Seq<Option<u32>> {
        self.cells@.map_values(|c: Cell| c.value)
    }
}

impl Grid {
    /// Exactly 81 cells, each empty or holding a digit from 1 to 9.
    pub open spec fn wf(&self) -> bool {
        &&& self.cells@.len() == 81
        &&& board_ok(self@)
    }

    /// Value of the cell at `coords` (column, row).
    pub fn get_value(&self, coords: [usize; 2]) -> (r: Option<u32>)
        requires
            self.wf(),
            in_bounds(coords),
        ensures
            r == self@[index_of(coords)],
    {
        self.cells[coords[0] + coords[1] * SIZE].value
    }

    /// Value of the cell at `coords` as text: its digit, or the empty string.
    pub fn get_value_str(&self, coords: [usize; 2]) -> (r: String)
        requires
            self.wf(),
            in_bounds(coords),
        ensures
            r@ == cell_text(self@[index_of(coords)]),
    {
        let mut s = String::new();
        if let Some(n) = self.cells[coords[0] + coords[1] * SIZE].value {
            let digits = "123456789";
            proof {
                assert(self@[index_of(coords)] == Some(n));
                assert(cell_ok(self@[index_of(coords)]));
                reveal_strlit("123456789");
            }
            let d = digits.substring_char((n - 1) as usize, n as usize);
            s.append(d);
            proof {
                assert(s@ =~= seq![digit_char(n)]);
            }
        } else {
            proof {
                assert(s@ =~= Seq::<char>::empty());
            }
        }
        s
    }

    /// First empty cell in row-major order (row 0 left to right, then row 1, ...).
    pub fn get_empty_cell(&self) -> (r: Option<[usize; 2]>)
        requires
            self.wf(),
        ensures
            match r {
                Some(c) => in_bounds(c) && index_of(c) == first_empty(self@),
                None => first_empty(self@) == 81,
            },
    {
        for y in 0..SIZE
            invariant
                self.wf(),
                first_empty(self@) == first_empty_from(self@, 9 * y as int),
        {
            for x in 0..SIZE
                invariant
                    self.wf(),
                    y < 9,
                    first_empty(self@) == first_empty_from(self@, x + 9 * y as int),
            {
                if self.cells[x + y * SIZE].value.is_none() {
                    return Some([x, y]);
                }
            }
        }
        None
    }

    /// Whether `n` may be placed at `cell`: it occurs neither in the cell's
    /// column nor in its row.
    pub fn check_num(&self, cell: [usize; 2], n: u32) -> (r: bool)
        requires
            self.wf(),
            in_bounds(cell),
        ensures
            r == candidate_ok(self@, cell[0] as int, cell[1] as int, n),
    {
        let col = self.get_col(cell[0]);
        for k in 0..SIZE
            invariant
                self.wf(),
                in_bounds(cell),
                col@.len() == 9,
                forall|j: int| 0 <= j < 9 ==> #[trigger] col@[j].value == at(self@, cell[0] as int, j),
                forall|j: int| 0 <= j < k ==> #[trigger] at(self@, cell[0] as int, j) != Some(n),
        {
            if col[k].value == Some(n) {
                return false;
            }
        }
        let row = self.get_row(cell[1]);
        for k in 0..SIZE
            invariant
                self.wf(),
                in_bounds(cell),
                row@.len() == 9,
                forall|j: int| 0 <= j < 9 ==> #[trigger] row@[j].value == at(self@, j, cell[1] as int),
                forall|j: int| 0 <= j < 9 ==> #[trigger] at(self@, cell[0] as int, j) != Some(n),
                forall|j: int| 0 <= j < k ==> #[trigger] at(self@, j, cell[1] as int) != Some(n),
        {
            if row[k].value == Some(n) {
                return false;
            }
        }
        true
    }

    /// The nine cells of column `col`, top to bottom.
    pub fn get_col(&self, col: usize) -> (r: Vec<Cell>)
        requires
            self.wf(),
            col < 9,
        ensures
            r@.len() == 9,
            forall|j: int| 0 <= j < 9 ==> #[trigger] r@[j].value == at(self@, col as int, j),
    {
        let mut c: Vec<Cell> = Vec::with_capacity(SIZE);
        for y in 0..SIZE
            invariant
                self.wf(),
                col < 9,
                c@.len() == y,
                forall|j: int| 0 <= j < y ==> #[trigger] c@[j].value == at(self@, col as int, j),
        {
            c.push(self.cells[col + y * SIZE]);
        }
        c
    }

    /// The nine cells of row `row`, left to right.
    pub fn get_row(&self, row: usize) -> (r: Vec<Cell>)
        requires
            self.wf(),
            row < 9,
        ensures
            r@.len() == 9,
            forall|j: int| 0 <= j < 9 ==> #[trigger] r@[j].value == at(self@, j, row as int),
    {
        let mut c: Vec<Cell> = Vec::with_capacity(SIZE);
        for x in 0..SIZE
            invariant
                self.wf(),
                row < 9,
                c@.len() == x,
                forall|j: int| 0 <= j < x ==> #[trigger] c@[j].value == at(self@, j, row as int),
        {
            c.push(self.cells[x + row * SIZE]);
        }
        c
    }

    /// Places digit `n` at `cell`, with no check against the rules.
    pub fn set(&mut self, cell: [usize; 2], n: u32)
        requires
            old(self).wf(),
            in_bounds(cell),
            1 <= n <= 9,
        ensures
            final(self).wf(),
            final(self)@ == old(self)@.update(index_of(cell), Some(n)),
    {
        let i = cell[0] + cell[1] * SIZE;
        self.cells.set(i, Cell::new(Some(n)));
        proof {
            assert(self@ =~= old(self)@.update(index_of(cell), Some(n)));
        }
    }

    /// Empties the cell at `cell`.
    pub fn unset(&mut self, cell: [usize; 2])
        requires
            old(self).wf(),
            in_bounds(cell),
        ensures
            final(self).wf(),
            final(self)@ == old(self)@.update(index_of(cell), None),
    {
        let i = cell[0] + cell[1] * SIZE;
        self.cells.set(i, Cell::new(None));
        proof {
            assert(self@ =~= old(self)@.update(index_of(cell), None));
        }
    }
}

} // verus!
