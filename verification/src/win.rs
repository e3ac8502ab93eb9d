//! Detection of five stones in a row.

use vstd::prelude::*;
use crate::ai::AI;
use crate::board::{CellSet, BOARD_SIZE};

verus! {

/// Whether `(x, y)` is a cell of the grid that `stones` holds.
pub open spec fn holds(stones: Set<(usize, usize)>, x: int, y: int) -> bool {
    0 <= x < BOARD_SIZE && 0 <= y < BOARD_SIZE && stones.contains((x as usize, y as usize))
}

/// Whether `stones` holds the five cells that start at `(i, j)` and run
/// along `(di, dj)`.
pub open spec fn five_from(stones: Set<(usize, usize)>, i: int, j: int, di: int, dj: int) -> bool {
    &&& holds(stones, i, j)
    &&& holds(stones, i + di, j + dj)
    &&& holds(stones, i + 2 * di, j + 2 * dj)
    &&& holds(stones, i + 3 * di, j + 3 * dj)
    &&& holds(stones, i + 4 * di, j + 4 * dj)
}

/// Whether a line of five starts at `(i, j)`: to the right, downwards, or
/// along one of the two diagonals.
pub open spec fn five_starts_at(stones: Set<(usize, usize)>, i: int, j: int) -> bool {
    ||| five_from(stones, i, j, 0, 1)
    ||| five_from(stones, i, j, 1, 0)
    ||| five_from(stones, i, j, 1, 1)
    ||| five_from(stones, i, j, 1, -1)
}

/// Whether `stones` holds five cells in a row anywhere on the grid.
pub open spec fn has_five(stones: Set<(usize, usize)>) -> bool {
    exists|i: int, j: int|
        0 <= i < BOARD_SIZE && 0 <= j < BOARD_SIZE && #[trigger] five_starts_at(stones, i, j)
}

/// Whether a line of five of `steps_st` starts at `(i, j)`.
pub fn line_starts_at(steps_st: &CellSet, i: usize, j: usize) -> (b: bool)
    requires
        steps_st.wf(),
        i < BOARD_SIZE,
        j < BOARD_SIZE,
    ensures
        b == five_starts_at(steps_st@, i as int, j as int),
{
    if !steps_st.contains(i, j) {
        return false;
    }
    (j < BOARD_SIZE - 4 && steps_st.contains(i, j + 1) && steps_st.contains(i, j + 2)
        && steps_st.contains(i, j + 3) && steps_st.contains(i, j + 4)) || (i < BOARD_SIZE - 4
        && steps_st.contains(i + 1, j) && steps_st.contains(i + 2, j) && steps_st.contains(i + 3, j)
        && steps_st.contains(i + 4, j)) || (i < BOARD_SIZE - 4 && j < BOARD_SIZE - 4
        && steps_st.contains(i + 1, j + 1) && steps_st.contains(i + 2, j + 2) && steps_st.contains(
        i + 3,
        j + 3,
    ) && steps_st.contains(i + 4, j + 4)) || (i < BOARD_SIZE - 4 && j > 3 && steps_st.contains(
        i + 1,
        j - 1,
    ) && steps_st.contains(i + 2, j - 2) && steps_st.contains(i + 3, j - 3) && steps_st.contains(
        i + 4,
        j - 4,
    ))
}

impl AI {
    /// Whether `steps_st` holds five cells in a row.
    pub fn game_win(steps_st: &CellSet) -> (won: bool)
        requires
            steps_st.wf(),
        ensures
            won == has_five(steps_st@),
    {
        let mut i: usize = 0;
        while i < BOARD_SIZE
            invariant
                i <= BOARD_SIZE,
                steps_st.wf(),
                forall|a: int, b: int|
                    0 <= a < i && 0 <= b < BOARD_SIZE ==> !#[trigger] five_starts_at(steps_st@, a, b),
            decreases BOARD_SIZE - i,
        {
            let mut j: usize = 0;
            while j < BOARD_SIZE
                invariant
                    i < BOARD_SIZE,
                    j <= BOARD_SIZE,
                    steps_st.wf(),
                    forall|a: int, b: int|
                        0 <= a < i && 0 <= b < BOARD_SIZE ==> !#[trigger] five_starts_at(steps_st@, a, b),
                    forall|b: int| 0 <= b < j ==> !#[trigger] five_starts_at(steps_st@, i as int, b),
                decreases BOARD_SIZE - j,
            {
                if line_starts_at(steps_st, i, j) {
                    return true;
                }
                j += 1;
            }
            i += 1;
        }
        false
    }
}

} // verus!
