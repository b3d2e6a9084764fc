//! The grid data model: a 9x9 matrix of digits stored row-major, where 0
//! marks an unassigned cell and 1 through 9 are filled values.

use vstd::prelude::*;

verus! {

/// Flat row-major index of the cell at row `r`, column `c`.
pub open spec fn idx(r: int, c: int) -> int {
    r * 9 + c
}

/// Both coordinates lie on the board.
pub open spec fn in_cell_range(r: int, c: int) -> bool {
    0 <= r < 9 && 0 <= c < 9
}

/// A well-formed grid: 81 cells, each holding a digit 0 through 9.
pub open spec fn grid_wf(s: Seq<u8>) -> bool {
    s.len() == 81 && (forall|i: int| 0 <= i < 81 ==> s[i] <= 9)
}

/// Every cell is filled with a digit 1 through 9.
pub open spec fn grid_complete(s: Seq<u8>) -> bool {
    forall|i: int| 0 <= i < 81 ==> 1 <= #[trigger] s[i] <= 9
}

/// The two (distinct) cells share a row, a column, or a 3x3 box.
pub open spec fn same_unit(r1: int, c1: int, r2: int, c2: int) -> bool {
    r1 == r2 || c1 == c2 || (r1 / 3 == r2 / 3 && c1 / 3 == c2 / 3)
}

/// No filled cell shares its value with another cell of its row, column or
/// box.  This is the search invariant: it holds of every grid the search
/// explores once it holds of the starting grid.
pub open spec fn no_conflict(s: Seq<u8>) -> bool {
    forall|r1: int, c1: int, r2: int, c2: int|
        in_cell_range(r1, c1) && in_cell_range(r2, c2) && !(r1 == r2 && c1 == c2)
            && same_unit(r1, c1, r2, c2) && #[trigger] s[idx(r1, c1)] != 0
            ==> s[idx(r1, c1)] != #[trigger] s[idx(r2, c2)]
}

/// Every cell filled in `s` keeps its value in `t`.
pub open spec fn extends(s: Seq<u8>, t: Seq<u8>) -> bool {
    forall|i: int| 0 <= i < 81 && s[i] != 0 ==> t[i] == s[i]
}

/// `t` solves the puzzle `s`: it is a well-formed, complete, conflict-free
/// grid that agrees with every cell already filled in `s`.
pub open spec fn is_solution(s: Seq<u8>, t: Seq<u8>) -> bool {
    grid_wf(t) && grid_complete(t) && no_conflict(t) && extends(s, t)
}

/// A 9x9 Sudoku grid.  Each branch of the search owns an independent copy.
pub struct Grid {
    cells: Vec<u8>,
}

impl View for Grid {
    type V = Seq<u8>;

    closed spec fn view(&self) -> Seq<u8> {
        self.cells@
    }
}

impl Grid {
    /// The structural invariant of a grid value.
    pub open spec fn wf(&self) -> bool {
        grid_wf(self@)
    }

    /// A grid with every cell unassigned.
    pub fn blank() -> (g: Grid)
        ensures
            g.wf(),
            forall|i: int| 0 <= i < 81 ==> g@[i] == 0,
    {
        let mut cells: Vec<u8> = Vec::new();
        for n in 0..81
            invariant
                cells@.len() == n,
                forall|i: int| 0 <= i < n ==> cells@[i] == 0,
        {
            cells.push(0);
        }
        Grid { cells }
    }

    /// Builds a grid from 81 row-major cell values, refusing any input that
    /// is not exactly 81 digits in 0 through 9.
    pub fn from_cells(cells: Vec<u8>) -> (g: Option<Grid>)
        ensures
            match g {
                Some(g) => g.wf() && g@ == cells@,
                None => !grid_wf(cells@),
            },
    {
        if cells.len() != 81 {
            return None;
        }
        for n in 0..81
            invariant
                cells@.len() == 81,
                forall|i: int| 0 <= i < n ==> cells@[i] <= 9,
        {
            if cells[n] > 9 {
                return None;
            }
        }
        Some(Grid { cells })
    }

    /// Reads the cell at row `r`, column `c`.
    pub fn get(&self, r: usize, c: usize) -> (v: u8)
        requires
            self.wf(),
            r < 9,
            c < 9,
        ensures
            v == self@[idx(r as int, c as int)],
    {
        self.cells[r * 9 + c]
    }

    /// Assigns `v` to the cell at row `r`, column `c`.
    pub fn set(&mut self, r: usize, c: usize, v: u8)
        requires
            old(self).wf(),
            r < 9,
            c < 9,
            v <= 9,
        ensures
            final(self).wf(),
            final(self)@ == old(self)@.update(idx(r as int, c as int), v),
    {
        self.cells[r * 9 + c] = v;
    }
}

impl Clone for Grid {
    fn clone(&self) -> (g: Grid)
        ensures
            g@ == self@,
    {
        let cells = self.cells.clone();
        proof {
            assert(cells@ =~= self.cells@);
        }
        Grid { cells }
    }
}

/// Reports whether every cell of the grid holds a digit 1 through 9.
pub fn complete(board: &Grid) -> (res: bool)
    requires
        board.wf(),
    ensures
        res == grid_complete(board@),
{
    for n in 0..81
        invariant
            board.wf(),
            forall|i: int| 0 <= i < n ==> 1 <= #[trigger] board@[i] <= 9,
    {
        let r = n / 9;
        let c = n % 9;
        let v = board.get(r, c);
        proof {
            assert(idx(r as int, c as int) == n);
        }
        if v < 1 || v > 9 {
            return false;
        }
    }
    true
}

/// The cell at `(r1, c1)` conflicts with no other cell of its row, column
/// or box.
pub open spec fn cell_conflict_free(s: Seq<u8>, r1: int, c1: int) -> bool {
    forall|r2: int, c2: int|
        in_cell_range(r2, c2) && !(r1 == r2 && c1 == c2) && same_unit(r1, c1, r2, c2)
            && s[idx(r1, c1)] != 0 ==> s[idx(r1, c1)] != #[trigger] s[idx(r2, c2)]
}

/// Checks one cell against every other cell of its units.
fn check_cell(board: &Grid, r1: usize, c1: usize) -> (res: bool)
    requires
        board.wf(),
        r1 < 9,
        c1 < 9,
    ensures
        res == cell_conflict_free(board@, r1 as int, c1 as int),
{
    let v = board.get(r1, c1);
    if v == 0 {
        return true;
    }
    for r2 in 0..9
        invariant
            board.wf(),
            r1 < 9,
            c1 < 9,
            v == board@[idx(r1 as int, c1 as int)],
            v != 0,
            forall|i: int, j: int|
                in_cell_range(i, j) && i < r2 && !(r1 == i && c1 == j)
                    && same_unit(r1 as int, c1 as int, i, j)
                    ==> v != #[trigger] board@[idx(i, j)],
    {
        for c2 in 0..9
            invariant
                board.wf(),
                r1 < 9,
                c1 < 9,
                r2 < 9,
                v == board@[idx(r1 as int, c1 as int)],
                v != 0,
                forall|i: int, j: int|
                    in_cell_range(i, j) && i < r2 && !(r1 == i && c1 == j)
                        && same_unit(r1 as int, c1 as int, i, j)
                        ==> v != #[trigger] board@[idx(i, j)],
                forall|j: int|
                    0 <= j < c2 && !(r1 == r2 && c1 == j)
                        && same_unit(r1 as int, c1 as int, r2 as int, j)
                        ==> v != #[trigger] board@[idx(r2 as int, j)],
        {
            if !(r1 == r2 && c1 == c2) {
                let same = r1 == r2 || c1 == c2 || (r1 / 3 == r2 / 3 && c1 / 3 == c2 / 3);
                if same && board.get(r2, c2) == v {
                    return false;
                }
            }
        }
    }
    true
}

/// Reports whether the grid's filled cells violate no uniqueness constraint.
pub fn board_valid(board: &Grid) -> (res: bool)
    requires
        board.wf(),
    ensures
        res == no_conflict(board@),
{
    for r1 in 0..9
        invariant
            board.wf(),
            forall|i: int, j: int|
                in_cell_range(i, j) && i < r1 ==> cell_conflict_free(board@, i, j),
    {
        for c1 in 0..9
            invariant
                board.wf(),
                r1 < 9,
                forall|i: int, j: int|
                    in_cell_range(i, j) && i < r1 ==> cell_conflict_free(board@, i, j),
                forall|j: int| 0 <= j < c1 ==> cell_conflict_free(board@, r1 as int, j),
        {
            if !check_cell(board, r1, c1) {
                proof {
                    assert(!no_conflict(board@)) by {
                        let (r2, c2) = choose|r2: int, c2: int|
                            in_cell_range(r2, c2) && !(r1 == r2 && c1 == c2)
                                && same_unit(r1 as int, c1 as int, r2, c2)
                                && board@[idx(r1 as int, c1 as int)] != 0
                                && board@[idx(r1 as int, c1 as int)] == board@[idx(r2, c2)];
                        assert(board@[idx(r1 as int, c1 as int)] != 0);
                    }
                }
                return false;
            }
        }
    }
    proof {
        assert(no_conflict(board@)) by {
            assert forall|r1: int, c1: int, r2: int, c2: int|
                in_cell_range(r1, c1) && in_cell_range(r2, c2) && !(r1 == r2 && c1 == c2)
                    && same_unit(r1, c1, r2, c2) && #[trigger] board@[idx(r1, c1)] != 0
                    implies board@[idx(r1, c1)] != #[trigger] board@[idx(r2, c2)] by {
                assert(cell_conflict_free(board@, r1, c1));
            }
        }
    }
    true
}

/// A grid whose filled cells already conflict has no solution: any complete
/// extension keeps the two offending cells.
pub proof fn lemma_conflict_no_solution(s: Seq<u8>)
    requires
        !no_conflict(s),
    ensures
        forall|t: Seq<u8>| !is_solution(s, t),
{
    let (r1, c1, r2, c2) = choose|r1: int, c1: int, r2: int, c2: int|
        in_cell_range(r1, c1) && in_cell_range(r2, c2) && !(r1 == r2 && c1 == c2)
            && same_unit(r1, c1, r2, c2) && #[trigger] s[idx(r1, c1)] != 0
            && s[idx(r1, c1)] == #[trigger] s[idx(r2, c2)];
    assert forall|t: Seq<u8>| !is_solution(s, t) by {
        if is_solution(s, t) {
            assert(t[idx(r1, c1)] == s[idx(r1, c1)]);
            assert(t[idx(r2, c2)] == s[idx(r2, c2)]);
        }
    }
}

} // verus!
