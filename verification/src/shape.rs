//! The table of tactical shapes and the scoring of one stone along one line.

use vstd::prelude::*;
use crate::board::{CellSet, BOARD_SIZE};

verus! {

/// Class of an empty cell in a window.
pub const EMPTY: u8 = 0;

/// Class of a cell that holds a stone of the side being scored.
pub const MINE: u8 = 1;

/// Class of a cell that holds a stone of the other side.
pub const ENEMY: u8 = 2;

/// Class of a position that lies off the grid.
pub const BLOCKED: u8 = 3;

/// The value of five in a row, the largest value in the table.
pub const FIVE_SCORE: i64 = 99_999_999;

/// Scores above this threshold take part in combination bonuses.
pub const COMBO_THRESHOLD: i64 = 10;

/// The most windows one side can have on record: one per cell and direction.
pub const MAX_RECORDS: usize = 900;

/// Class of the position `(x, y)` as seen by the side that owns `mine`.
pub open spec fn cell_class(
    mine: Set<(usize, usize)>,
    enemy: Set<(usize, usize)>,
    x: int,
    y: int,
) -> int {
    if 0 <= x < BOARD_SIZE && 0 <= y < BOARD_SIZE {
        if enemy.contains((x as usize, y as usize)) {
            ENEMY as int
        } else if mine.contains((x as usize, y as usize)) {
            MINE as int
        } else {
            EMPTY as int
        }
    } else {
        BLOCKED as int
    }
}

/// The table's value of a five-cell shape, 0 for a shape it does not list.
pub open spec fn five_shape_score(c0: int, c1: int, c2: int, c3: int, c4: int) -> int {
    let w = (c0, c1, c2, c3, c4);
    if w == (0int, 1int, 1int, 0int, 0int) {
        50
    } else if w == (0int, 0int, 1int, 1int, 0int) {
        50
    } else if w == (1int, 1int, 0int, 1int, 0int) {
        200
    } else if w == (0int, 0int, 1int, 1int, 1int) {
        500
    } else if w == (1int, 1int, 1int, 0int, 0int) {
        500
    } else if w == (0int, 1int, 1int, 1int, 0int) {
        5000
    } else if w == (1int, 1int, 1int, 0int, 1int) {
        5000
    } else if w == (1int, 1int, 0int, 1int, 1int) {
        5000
    } else if w == (1int, 0int, 1int, 1int, 1int) {
        5000
    } else if w == (1int, 1int, 1int, 1int, 0int) {
        5000
    } else if w == (0int, 1int, 1int, 1int, 1int) {
        5000
    } else if w == (1int, 1int, 1int, 1int, 1int) {
        FIVE_SCORE as int
    } else {
        0
    }
}

/// The table's value of a six-cell shape, 0 for a shape it does not list.
pub open spec fn six_shape_score(c0: int, c1: int, c2: int, c3: int, c4: int, c5: int) -> int {
    let w = (c0, c1, c2, c3, c4, c5);
    if w == (0int, 1int, 0int, 1int, 1int, 0int) {
        5000
    } else if w == (0int, 1int, 1int, 0int, 1int, 0int) {
        5000
    } else if w == (0int, 1int, 1int, 1int, 1int, 0int) {
        50000
    } else {
        0
    }
}

/// The value of a six-cell window: the better of the shape that its first
/// five cells form and the shape that all six form.
pub open spec fn window_score(c0: int, c1: int, c2: int, c3: int, c4: int, c5: int) -> int {
    let five = five_shape_score(c0, c1, c2, c3, c4);
    let six = six_shape_score(c0, c1, c2, c3, c4, c5);
    if six > five {
        six
    } else {
        five
    }
}

/// The value of the window that starts `offset` steps from `(x, y)` along
/// `(dx, dy)`.
pub open spec fn offset_score(
    mine: Set<(usize, usize)>,
    enemy: Set<(usize, usize)>,
    x: int,
    y: int,
    dx: int,
    dy: int,
    offset: int,
) -> int {
    window_score(
        cell_class(mine, enemy, x + offset * dx, y + offset * dy),
        cell_class(mine, enemy, x + (offset + 1) * dx, y + (offset + 1) * dy),
        cell_class(mine, enemy, x + (offset + 2) * dx, y + (offset + 2) * dy),
        cell_class(mine, enemy, x + (offset + 3) * dx, y + (offset + 3) * dy),
        cell_class(mine, enemy, x + (offset + 4) * dx, y + (offset + 4) * dy),
        cell_class(mine, enemy, x + (offset + 5) * dx, y + (offset + 5) * dy),
    )
}

/// The coordinate `k` steps of size `d` from `base`.
pub fn along(base: i32, k: i32, d: i32) -> (r: i32)
    requires
        -5 <= base < 20,
        -5 <= k <= 5,
        -1 <= d <= 1,
    ensures
        r == base + k * d,
        base - 5 <= r <= base + 5,
{
    assert(-5 <= k * d <= 5) by (nonlinear_arith)
        requires
            -5 <= k <= 5,
            -1 <= d <= 1,
    ;
    base + k * d
}

/// A five-cell window that was scored: it starts at `(x, y)` and runs along
/// `(dx, dy)`. A score of 0 stands for "no shape found" and covers no cell.
#[derive(Clone, Copy, Debug)]
pub struct ScoredWindow {
    pub score: i64,
    pub x: i32,
    pub y: i32,
    pub dx: i32,
    pub dy: i32,
}

impl ScoredWindow {
    /// The record of a line on which no shape was found.
    pub open spec fn none() -> ScoredWindow {
        ScoredWindow { score: 0, x: 0, y: 0, dx: 0, dy: 0 }
    }

    /// Bounds that every record made by `cal_score` meets.
    pub open spec fn wf(self) -> bool {
        &&& 0 <= self.score <= FIVE_SCORE
        &&& -5 <= self.x < 20
        &&& -5 <= self.y < 20
        &&& -1 <= self.dx <= 1
        &&& -1 <= self.dy <= 1
    }

    /// The window's `k`-th cell.
    pub open spec fn cell(self, k: int) -> (int, int) {
        (self.x + k * self.dx, self.y + k * self.dy)
    }

    /// Whether `(px, py)` is one of the five cells of a scored window.
    pub open spec fn covers(self, px: int, py: int) -> bool {
        self.score > 0 && exists|k: int| 0 <= k < 5 && #[trigger] self.cell(k) == (px, py)
    }

    /// Whether the two windows are the same five cells.
    pub open spec fn same_window(self, other: ScoredWindow) -> bool {
        self.x == other.x && self.y == other.y && self.dx == other.dx && self.dy == other.dy
    }

    /// Whether two scored windows share a cell.
    pub open spec fn overlaps(self, other: ScoredWindow) -> bool {
        self.score > 0 && exists|k: int|
            0 <= k < 5 && other.covers((#[trigger] self.cell(k)).0, self.cell(k).1)
    }

    /// Whether `(px, py)` is one of the window's cells.
    pub fn covers_cell(&self, px: i32, py: i32) -> (b: bool)
        requires
            self.wf(),
        ensures
            b == self.covers(px as int, py as int),
    {
        if self.score <= 0 {
            return false;
        }
        let mut k: i32 = 0;
        while k < 5
            invariant
                0 <= k <= 5,
                self.wf(),
                self.score > 0,
                forall|j: int| 0 <= j < k ==> #[trigger] self.cell(j) != (px as int, py as int),
            decreases 5 - k,
        {
            if px == along(self.x, k, self.dx) && py == along(self.y, k, self.dy) {
                assert(self.cell(k as int) == (px as int, py as int));
                return true;
            }
            k += 1;
        }
        false
    }

    /// Whether the two windows are the same five cells.
    pub fn is_same_window(&self, other: &ScoredWindow) -> (b: bool)
        ensures
            b == self.same_window(*other),
    {
        self.x == other.x && self.y == other.y && self.dx == other.dx && self.dy == other.dy
    }

    /// Whether the two windows share a cell.
    pub fn shares_cell(&self, other: &ScoredWindow) -> (b: bool)
        requires
            self.wf(),
            other.wf(),
        ensures
            b == self.overlaps(*other),
    {
        if self.score <= 0 {
            return false;
        }
        let mut k: i32 = 0;
        while k < 5
            invariant
                0 <= k <= 5,
                self.wf(),
                other.wf(),
                self.score > 0,
                forall|j: int|
                    0 <= j < k ==> !other.covers((#[trigger] self.cell(j)).0, self.cell(j).1),
            decreases 5 - k,
        {
            if other.covers_cell(along(self.x, k, self.dx), along(self.y, k, self.dy)) {
                assert(other.covers(self.cell(k as int).0, self.cell(k as int).1));
                return true;
            }
            k += 1;
        }
        false
    }
}

/// The best window found among the first `n` offsets, which run from -5 up:
/// a later window replaces an earlier one only with a strictly larger value.
pub open spec fn best_window_upto(
    mine: Set<(usize, usize)>,
    enemy: Set<(usize, usize)>,
    x: int,
    y: int,
    dx: int,
    dy: int,
    n: int,
) -> ScoredWindow
    decreases n,
{
    if n <= 0 {
        ScoredWindow::none()
    } else {
        let prev = best_window_upto(mine, enemy, x, y, dx, dy, n - 1);
        let offset = n - 6;
        let s = offset_score(mine, enemy, x, y, dx, dy, offset);
        if s > prev.score {
            ScoredWindow {
                score: s as i64,
                x: (x + offset * dx) as i32,
                y: (y + offset * dy) as i32,
                dx: dx as i32,
                dy: dy as i32,
            }
        } else {
            prev
        }
    }
}

/// The best window among the six that end at, pass through or start at the
/// stone `(x, y)` along `(dx, dy)`.
pub open spec fn best_window(
    mine: Set<(usize, usize)>,
    enemy: Set<(usize, usize)>,
    x: int,
    y: int,
    dx: int,
    dy: int,
) -> ScoredWindow {
    best_window_upto(mine, enemy, x, y, dx, dy, 6)
}

/// Whether a window on record for the direction `(dx, dy)` covers `(x, y)`.
pub open spec fn already_scored(records: Seq<ScoredWindow>, x: int, y: int, dx: int, dy: int) -> bool {
    exists|i: int|
        0 <= i < records.len() && records[i].dx == dx && records[i].dy == dy
            && #[trigger] records[i].covers(x, y)
}

/// The bonus that the pair `(r, w)` earns: both values again, where both
/// are above the threshold and the windows are two different windows that
/// share a cell.
pub open spec fn pair_bonus(r: ScoredWindow, w: ScoredWindow) -> int {
    if w.score > COMBO_THRESHOLD && r.score > COMBO_THRESHOLD && !r.same_window(w) && r.overlaps(
        w,
    ) {
        r.score + w.score
    } else {
        0
    }
}

/// The sum of the bonuses that `w` earns with each window on record.
pub open spec fn combo_bonus(records: Seq<ScoredWindow>, w: ScoredWindow) -> int
    decreases records.len(),
{
    if records.len() == 0 {
        0
    } else {
        combo_bonus(records.drop_last(), w) + pair_bonus(records.last(), w)
    }
}

/// Value that the stone `(x, y)` adds along `(dx, dy)`, and the records
/// after it was scored.
pub open spec fn cal_score_spec(
    mine: Set<(usize, usize)>,
    enemy: Set<(usize, usize)>,
    records: Seq<ScoredWindow>,
    x: int,
    y: int,
    dx: int,
    dy: int,
) -> (int, Seq<ScoredWindow>) {
    if already_scored(records, x, y, dx, dy) {
        (0, records)
    } else {
        let w = best_window(mine, enemy, x, y, dx, dy);
        (w.score + combo_bonus(records, w), records.push(w))
    }
}

/// Whether every window on record is within bounds.
pub open spec fn records_wf(records: Seq<ScoredWindow>) -> bool {
    forall|i: int| 0 <= i < records.len() ==> (#[trigger] records[i]).wf()
}

/// Whether `(dx, dy)` is one of the four line directions.
pub open spec fn is_direction(dx: int, dy: int) -> bool {
    (dx == 0 && dy == 1) || (dx == 1 && dy == 0) || (dx == 1 && dy == 1) || (dx == 1 && dy == -1)
}

/// A window's value is never negative and never above that of a five.
pub proof fn lemma_window_score_bounds(c0: int, c1: int, c2: int, c3: int, c4: int, c5: int)
    ensures
        0 <= window_score(c0, c1, c2, c3, c4, c5) <= FIVE_SCORE,
{
}

/// The best window of a stone on the grid is within bounds.
pub proof fn lemma_best_window_wf(
    mine: Set<(usize, usize)>,
    enemy: Set<(usize, usize)>,
    x: int,
    y: int,
    dx: int,
    dy: int,
    n: int,
)
    requires
        0 <= x < BOARD_SIZE,
        0 <= y < BOARD_SIZE,
        -1 <= dx <= 1,
        -1 <= dy <= 1,
        n <= 6,
    ensures
        best_window_upto(mine, enemy, x, y, dx, dy, n).wf(),
    decreases n,
{
    if n > 0 {
        lemma_best_window_wf(mine, enemy, x, y, dx, dy, n - 1);
        let offset = n - 6;
        assert(-5 <= offset * dx <= 5) by (nonlinear_arith)
            requires -5 <= offset <= 0, -1 <= dx <= 1;
        assert(-5 <= offset * dy <= 5) by (nonlinear_arith)
            requires -5 <= offset <= 0, -1 <= dy <= 1;
    }
}

/// Whether `w` is the window that starts `offset` steps from `(x, y)` along
/// `(dx, dy)`, with the value of that window.
pub open spec fn is_window_at(
    w: ScoredWindow,
    mine: Set<(usize, usize)>,
    enemy: Set<(usize, usize)>,
    x: int,
    y: int,
    dx: int,
    dy: int,
    offset: int,
) -> bool {
    &&& w.score == offset_score(mine, enemy, x, y, dx, dy, offset)
    &&& w.x == x + offset * dx
    &&& w.y == y + offset * dy
    &&& w.dx == dx
    &&& w.dy == dy
}

/// What the best window is: where no window around the stone forms a shape,
/// the empty record; else the window of the greatest value, and among those
/// of that value the one that starts first. It lies on the grid.
pub proof fn law_best_window_is_first_best(
    mine: Set<(usize, usize)>,
    enemy: Set<(usize, usize)>,
    x: int,
    y: int,
    dx: int,
    dy: int,
    n: int,
)
    requires
        0 <= x < BOARD_SIZE,
        0 <= y < BOARD_SIZE,
        -1 <= dx <= 1,
        -1 <= dy <= 1,
        0 <= n <= 6,
    ensures
        forall|o: int|
            -5 <= o < n - 5 ==> #[trigger] offset_score(mine, enemy, x, y, dx, dy, o)
                <= best_window_upto(mine, enemy, x, y, dx, dy, n).score,
        best_window_upto(mine, enemy, x, y, dx, dy, n).score == 0 ==> best_window_upto(
            mine,
            enemy,
            x,
            y,
            dx,
            dy,
            n,
        ) == ScoredWindow::none(),
        best_window_upto(mine, enemy, x, y, dx, dy, n).score > 0 ==> exists|o: int|
            -5 <= o < n - 5 && #[trigger] is_window_at(
                best_window_upto(mine, enemy, x, y, dx, dy, n),
                mine,
                enemy,
                x,
                y,
                dx,
                dy,
                o,
            ) && forall|e: int|
                -5 <= e < o ==> #[trigger] offset_score(mine, enemy, x, y, dx, dy, e)
                    < best_window_upto(mine, enemy, x, y, dx, dy, n).score,
        best_window_upto(mine, enemy, x, y, dx, dy, n).score > 0 ==> forall|k: int|
            0 <= k < 5 ==> 0 <= (#[trigger] best_window_upto(mine, enemy, x, y, dx, dy, n).cell(k)).0
                < BOARD_SIZE && 0 <= best_window_upto(mine, enemy, x, y, dx, dy, n).cell(k).1
                < BOARD_SIZE,
    decreases n,
{
    if n > 0 {
        law_best_window_is_first_best(mine, enemy, x, y, dx, dy, n - 1);
        lemma_best_window_wf(mine, enemy, x, y, dx, dy, n);
        lemma_best_window_wf(mine, enemy, x, y, dx, dy, n - 1);
        let prev = best_window_upto(mine, enemy, x, y, dx, dy, n - 1);
        let best = best_window_upto(mine, enemy, x, y, dx, dy, n);
        let offset = n - 6;
        let s = offset_score(mine, enemy, x, y, dx, dy, offset);
        lemma_window_score_bounds(
            cell_class(mine, enemy, x + offset * dx, y + offset * dy),
            cell_class(mine, enemy, x + (offset + 1) * dx, y + (offset + 1) * dy),
            cell_class(mine, enemy, x + (offset + 2) * dx, y + (offset + 2) * dy),
            cell_class(mine, enemy, x + (offset + 3) * dx, y + (offset + 3) * dy),
            cell_class(mine, enemy, x + (offset + 4) * dx, y + (offset + 4) * dy),
            cell_class(mine, enemy, x + (offset + 5) * dx, y + (offset + 5) * dy),
        );
        assert(-5 <= offset * dx <= 5) by (nonlinear_arith)
            requires
                -5 <= offset <= 0,
                -1 <= dx <= 1,
        ;
        assert(-5 <= offset * dy <= 5) by (nonlinear_arith)
            requires
                -5 <= offset <= 0,
                -1 <= dy <= 1,
        ;
        if s > prev.score {
            assert(is_window_at(best, mine, enemy, x, y, dx, dy, offset));
            assert forall|k: int| 0 <= k < 5 implies 0 <= (#[trigger] best.cell(k)).0 < BOARD_SIZE
                && 0 <= best.cell(k).1 < BOARD_SIZE by {
                assert(best.cell(k) == (x + offset * dx + k * dx, y + offset * dy + k * dy));
                assert((offset + k) * dx == offset * dx + k * dx) by (nonlinear_arith);
                assert((offset + k) * dy == offset * dy + k * dy) by (nonlinear_arith);
                assert(cell_class(mine, enemy, x + (offset + k) * dx, y + (offset + k) * dy) <= 1);
            }
        } else if prev.score > 0 {
            let o = choose|o: int|
                -5 <= o < n - 6 && #[trigger] is_window_at(prev, mine, enemy, x, y, dx, dy, o)
                    && forall|e: int|
                    -5 <= e < o ==> #[trigger] offset_score(mine, enemy, x, y, dx, dy, e)
                        < prev.score;
            assert(is_window_at(best, mine, enemy, x, y, dx, dy, o));
        }
    }
}

/// The combination bonus is at most two fives for each window on record.
pub proof fn lemma_combo_bonus_bounds(records: Seq<ScoredWindow>, w: ScoredWindow)
    requires
        records_wf(records),
        w.wf(),
    ensures
        0 <= combo_bonus(records, w) <= 199_999_998 * records.len(),
    decreases records.len(),
{
    if records.len() > 0 {
        assert(records_wf(records.drop_last()));
        lemma_combo_bonus_bounds(records.drop_last(), w);
        assert(records.last().wf());
    }
}

/// Class of the position `(x, y)`.
pub fn classify(mine: &CellSet, enemy: &CellSet, x: i32, y: i32) -> (c: u8)
    requires
        mine.wf(),
        enemy.wf(),
    ensures
        c as int == cell_class(mine@, enemy@, x as int, y as int),
{
    if x < 0 || y < 0 || x >= 15 || y >= 15 {
        BLOCKED
    } else if enemy.contains(x as usize, y as usize) {
        ENEMY
    } else if mine.contains(x as usize, y as usize) {
        MINE
    } else {
        EMPTY
    }
}

/// The table's value of the five-cell shape `(c0, .., c4)`.
pub fn five_shape(c0: u8, c1: u8, c2: u8, c3: u8, c4: u8) -> (s: i64)
    ensures
        s == five_shape_score(c0 as int, c1 as int, c2 as int, c3 as int, c4 as int),
{
    if c0 > 1 || c1 > 1 || c2 > 1 || c3 > 1 || c4 > 1 {
        return 0;
    }
    let ones: u8 = c0 + c1 + c2 + c3 + c4;
    if ones == 5 {
        FIVE_SCORE
    } else if ones == 4 {
        5000
    } else if ones == 3 {
        if c1 == 1 && c2 == 1 && c3 == 1 {
            5000
        } else if c0 == 0 && c1 == 0 {
            500
        } else if c3 == 0 && c4 == 0 {
            500
        } else if c2 == 0 && c4 == 0 {
            200
        } else {
            0
        }
    } else if ones == 2 {
        if c0 == 0 && c4 == 0 && c2 == 1 {
            50
        } else {
            0
        }
    } else {
        0
    }
}

/// The table's value of the six-cell shape `(c0, .., c5)`.
pub fn six_shape(c0: u8, c1: u8, c2: u8, c3: u8, c4: u8, c5: u8) -> (s: i64)
    ensures
        s == six_shape_score(c0 as int, c1 as int, c2 as int, c3 as int, c4 as int, c5 as int),
{
    if c0 != 0 || c5 != 0 || c1 != 1 || c4 != 1 || c2 > 1 || c3 > 1 {
        0
    } else if c2 == 1 && c3 == 1 {
        50000
    } else if c2 != c3 {
        5000
    } else {
        0
    }
}

} // verus!
