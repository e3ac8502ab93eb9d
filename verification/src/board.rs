//! Grid geometry and the set of occupied cells.

use vstd::prelude::*;

verus! {

/// Number of rows, and of columns, of the grid.
pub const BOARD_SIZE: usize = 15;

/// Number of cells of the grid.
pub const CELL_COUNT: usize = 225;

/// Whether `c` names an intersection of the grid.
pub open spec fn in_board(c: (usize, usize)) -> bool {
    c.0 < BOARD_SIZE && c.1 < BOARD_SIZE
}

/// Row-major index of a cell.
pub open spec fn cell_index(c: (usize, usize)) -> int {
    c.0 * BOARD_SIZE + c.1
}

/// The cell with row-major index `k`.
pub open spec fn cell_at(k: int) -> (usize, usize) {
    ((k / BOARD_SIZE as int) as usize, (k % BOARD_SIZE as int) as usize)
}

/// A set of grid cells with constant-time membership tests.
#[derive(Debug)]
pub struct CellSet {
    bits: Vec<bool>,
}

impl View for CellSet {
    type V = Set<(usize, usize)>;

    closed spec fn view(&self) -> Set<(usize, usize)> {
        Set::new(|c: (usize, usize)| in_board(c) && self.bits@[cell_index(c)])
    }
}

impl CellSet {
    /// The representation invariant: one flag per cell.
    pub closed spec fn wf(&self) -> bool {
        self.bits@.len() == CELL_COUNT
    }

    /// Every member is a cell of the grid.
    pub proof fn lemma_members_in_board(&self)
        ensures
            forall|c: (usize, usize)| #[trigger] self@.contains(c) ==> in_board(c),
    {
    }

    /// The empty set.
    pub fn new() -> (s: CellSet)
        ensures
            s.wf(),
            s@ == Set::<(usize, usize)>::empty(),
    {
        let mut bits: Vec<bool> = Vec::new();
        let mut k: usize = 0;
        while k < CELL_COUNT
            invariant
                k <= CELL_COUNT,
                bits@.len() == k,
                forall|i: int| 0 <= i < k ==> !bits@[i],
            decreases CELL_COUNT - k,
        {
            bits.push(false);
            k += 1;
        }
        let s = CellSet { bits };
        assert(s@ =~= Set::<(usize, usize)>::empty());
        s
    }

    /// Whether `(x, y)` is a member; cells outside the grid never are.
    pub fn contains(&self, x: usize, y: usize) -> (b: bool)
        requires
            self.wf(),
        ensures
            b == self@.contains((x, y)),
    {
        x < BOARD_SIZE && y < BOARD_SIZE && self.bits[x * BOARD_SIZE + y]
    }

    /// Adds `(x, y)`.
    pub fn insert(&mut self, x: usize, y: usize)
        requires
            old(self).wf(),
            in_board((x, y)),
        ensures
            final(self).wf(),
            final(self)@ == old(self)@.insert((x, y)),
    {
        self.bits.set(x * BOARD_SIZE + y, true);
        assert forall|c: (usize, usize)| self@.contains(c) == old(self)@.insert((x, y)).contains(c) by {
            if c != (x, y) && in_board(c) {
                assert(cell_index(c) != cell_index((x, y)));
            }
        }
        assert(self@ =~= old(self)@.insert((x, y)));
    }

    /// Removes `(x, y)`.
    pub fn remove(&mut self, x: usize, y: usize)
        requires
            old(self).wf(),
            in_board((x, y)),
        ensures
            final(self).wf(),
            final(self)@ == old(self)@.remove((x, y)),
    {
        self.bits.set(x * BOARD_SIZE + y, false);
        assert forall|c: (usize, usize)| self@.contains(c) == old(self)@.remove((x, y)).contains(c) by {
            if c != (x, y) && in_board(c) {
                assert(cell_index(c) != cell_index((x, y)));
            }
        }
        assert(self@ =~= old(self)@.remove((x, y)));
    }
}

} // verus!
