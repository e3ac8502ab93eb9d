//! The cells that the search tries, and the order in which it tries them.

use vstd::prelude::*;
use crate::ai::AI;
use crate::board::{cell_at, in_board, BOARD_SIZE, CELL_COUNT};
use crate::position::Position;
use crate::win::holds;

verus! {

/// The `k`-th of the eight positions around `c`, row by row from the upper
/// left, as a pair of integers that may lie off the grid.
pub open spec fn neighbor(c: (usize, usize), k: int) -> (int, int) {
    let m = if k < 4 {
        k
    } else {
        k + 1
    };
    (c.0 + m / 3 - 1, c.1 + m % 3 - 1)
}

/// Whether the `k`-th position around `c` holds one of `stones`.
pub open spec fn neighbor_holds(stones: Set<(usize, usize)>, c: (usize, usize), k: int) -> bool {
    holds(stones, neighbor(c, k).0, neighbor(c, k).1)
}

/// Whether one of the eight positions around `c` holds one of `stones`.
pub open spec fn has_neighbor_in(stones: Set<(usize, usize)>, c: (usize, usize)) -> bool {
    exists|k: int| 0 <= k < 8 && #[trigger] neighbor_holds(stones, c, k)
}

/// The cells of the grid, row by row.
pub open spec fn all_cells() -> Seq<(usize, usize)> {
    Seq::new(CELL_COUNT as nat, |k: int| cell_at(k))
}

/// The empty cells of `p`, row by row.
pub open spec fn blank_cells(p: Position) -> Seq<(usize, usize)> {
    all_cells().filter(|c: (usize, usize)| !p.occupied(c))
}

/// Whether `i` is the first index at which `s` holds `c`.
pub open spec fn is_first_index(s: Seq<(usize, usize)>, c: (usize, usize), i: int) -> bool {
    &&& 0 <= i < s.len()
    &&& s[i] == c
    &&& forall|j: int| 0 <= j < i ==> s[j] != c
}

/// `s` with the first occurrence of `c`, if there is one, moved to the
/// front.
pub open spec fn move_to_front(s: Seq<(usize, usize)>, c: (usize, usize)) -> Seq<(usize, usize)> {
    if s.contains(c) {
        let i = choose|i: int| is_first_index(s, c, i);
        s.remove(i).insert(0, c)
    } else {
        s
    }
}

/// `s` after each of the first `n` positions around `last` that is a cell
/// of the grid was moved to the front, in turn.
pub open spec fn order_upto(s: Seq<(usize, usize)>, last: (usize, usize), n: int) -> Seq<
    (usize, usize),
>
    decreases n,
{
    if n <= 0 {
        s
    } else {
        let before = order_upto(s, last, n - 1);
        let pt = neighbor(last, n - 1);
        if 0 <= pt.0 < BOARD_SIZE && 0 <= pt.1 < BOARD_SIZE {
            move_to_front(before, (pt.0 as usize, pt.1 as usize))
        } else {
            before
        }
    }
}

/// `s` with the cells around the last move of `all` moved to the front:
/// the one that comes last in the round comes first.
pub open spec fn order_spec(s: Seq<(usize, usize)>, all: Seq<(usize, usize)>) -> Seq<
    (usize, usize),
> {
    if all.len() == 0 {
        s
    } else {
        order_upto(s, all.last(), 8)
    }
}

/// The cells that the search tries in `p`, in the order in which it tries
/// them: the empty cells next to a stone, those around the last move
/// first.
#[verifier::opaque]
pub open spec fn candidates_of(p: Position) -> Seq<(usize, usize)> {
    order_spec(blank_cells(p), p.all).filter(|c: (usize, usize)| has_neighbor_in(p.stones(), c))
}

/// Moving a cell to the front keeps what the sequence holds, and keeps it
/// free of repetition.
pub proof fn lemma_move_to_front(s: Seq<(usize, usize)>, c: (usize, usize))
    ensures
        forall|x: (usize, usize)| move_to_front(s, c).contains(x) <==> s.contains(x),
        s.no_duplicates() ==> move_to_front(s, c).no_duplicates(),
        move_to_front(s, c).len() == s.len(),
{
    if s.contains(c) {
        let w = choose|w: int| 0 <= w < s.len() && s[w] == c;
        lemma_first_index_exists(s, c, w);
        let i = choose|i: int| is_first_index(s, c, i);
        let r = s.remove(i);
        let t = r.insert(0, c);
        s.remove_ensures(i);
        r.insert_ensures(0, c);
        assert forall|x: (usize, usize)| t.contains(x) <==> s.contains(x) by {
            if t.contains(x) {
                let a = choose|a: int| 0 <= a < t.len() && t[a] == x;
                if a == 0 {
                    assert(s[i] == x);
                } else {
                    assert(t[a] == r[a - 1]);
                    if a - 1 < i {
                        assert(s[a - 1] == x);
                    } else {
                        assert(s[a] == x);
                    }
                }
            }
            if s.contains(x) {
                let b = choose|b: int| 0 <= b < s.len() && s[b] == x;
                if b == i {
                    assert(t[0] == x);
                } else if b < i {
                    assert(r[b] == x);
                    assert(t[b + 1] == r[b]);
                    assert(t[b + 1] == x);
                } else {
                    assert(r[b - 1] == x);
                    assert(t[b] == r[b - 1]);
                    assert(t[b] == x);
                }
            }
        }
        if s.no_duplicates() {
            assert forall|a: int, b: int| 0 <= a < t.len() && 0 <= b < t.len() && a != b implies t[a]
                != t[b] by {
                let sa = if a == 0 {
                    i
                } else if a - 1 < i {
                    a - 1
                } else {
                    a
                };
                let sb = if b == 0 {
                    i
                } else if b - 1 < i {
                    b - 1
                } else {
                    b
                };
                if a > 0 {
                    assert(t[a] == r[a - 1]);
                }
                if b > 0 {
                    assert(t[b] == r[b - 1]);
                }
                assert(t[a] == s[sa]);
                assert(t[b] == s[sb]);
                assert(sa != sb);
            }
        }
    }
}

/// A sequence that holds `c` holds it at a first index.
pub proof fn lemma_first_index_exists(s: Seq<(usize, usize)>, c: (usize, usize), w: int)
    requires
        0 <= w < s.len(),
        s[w] == c,
    ensures
        exists|i: int| is_first_index(s, c, i),
    decreases w,
{
    if exists|j: int| 0 <= j < w && s[j] == c {
        let j = choose|j: int| 0 <= j < w && s[j] == c;
        lemma_first_index_exists(s, c, j);
    } else {
        assert(is_first_index(s, c, w));
    }
}

/// Ordering keeps what the sequence holds, and keeps it free of
/// repetition.
pub proof fn lemma_order_upto(s: Seq<(usize, usize)>, last: (usize, usize), n: int)
    ensures
        forall|x: (usize, usize)| order_upto(s, last, n).contains(x) <==> s.contains(x),
        s.no_duplicates() ==> order_upto(s, last, n).no_duplicates(),
        order_upto(s, last, n).len() == s.len(),
    decreases n,
{
    if n > 0 {
        lemma_order_upto(s, last, n - 1);
        let before = order_upto(s, last, n - 1);
        let pt = neighbor(last, n - 1);
        if 0 <= pt.0 < BOARD_SIZE && 0 <= pt.1 < BOARD_SIZE {
            lemma_move_to_front(before, (pt.0 as usize, pt.1 as usize));
        }
    }
}

/// The blank cells are the empty cells of the grid, each once.
pub proof fn lemma_blank_cells(p: Position)
    ensures
        forall|c: (usize, usize)|
            #![trigger blank_cells(p).contains(c)]
            #![trigger p.is_empty_cell(c)]
            blank_cells(p).contains(c) <==> p.is_empty_cell(c),
        blank_cells(p).no_duplicates(),
        blank_cells(p).len() <= CELL_COUNT,
{
    let pred = |c: (usize, usize)| !p.occupied(c);
    let cells = all_cells();
    let blanks = blank_cells(p);
    broadcast use vstd::seq_lib::group_filter_ensures;

    assert forall|c: (usize, usize)| blanks.contains(c) <==> p.is_empty_cell(c) by {
        if blanks.contains(c) {
            cells.lemma_filter_contains_rev(pred, c);
            let i = choose|i: int| 0 <= i < cells.len() && cells[i] == c;
            assert(in_board(cell_at(i)));
            let j = choose|j: int| 0 <= j < blanks.len() && blanks[j] == c;
            cells.lemma_filter_pred(pred, j);
        }
        if p.is_empty_cell(c) {
            crate::zobrist::lemma_cell_index(c);
            let k = crate::board::cell_index(c);
            assert(cells[k] == c);
            cells.lemma_filter_contains(pred, k);
        }
    }
    assert(cells.no_duplicates()) by {
        assert forall|i: int, j: int| 0 <= i < cells.len() && 0 <= j < cells.len() && i != j implies cells[i]
            != cells[j] by {
            assert(cell_at(i) != cell_at(j));
        }
    }
    lemma_filter_no_duplicates(cells, pred);
    cells.lemma_filter_len(pred);
}

/// Filtering a sequence without repetition leaves none.
pub proof fn lemma_filter_no_duplicates(s: Seq<(usize, usize)>, pred: spec_fn((usize, usize)) -> bool)
    requires
        s.no_duplicates(),
    ensures
        s.filter(pred).no_duplicates(),
    decreases s.len(),
{
    reveal(Seq::filter);
    if s.len() > 0 {
        let d = s.drop_last();
        lemma_filter_no_duplicates(d, pred);
        if pred(s.last()) {
            let f = d.filter(pred);
            assert(!f.contains(s.last())) by {
                if f.contains(s.last()) {
                    d.lemma_filter_contains_rev(pred, s.last());
                    let i = choose|i: int| 0 <= i < d.len() && d[i] == s.last();
                    assert(s[i] == s[s.len() - 1]);
                }
            }
            assert forall|a: int, b: int|
                0 <= a < f.push(s.last()).len() && 0 <= b < f.push(s.last()).len() && a
                    != b implies f.push(s.last())[a] != f.push(s.last())[b] by {
                if a < f.len() {
                    assert(f.contains(f[a]));
                }
                if b < f.len() {
                    assert(f.contains(f[b]));
                }
            }
        }
    }
}

/// The candidates are the empty cells next to a stone, each once.
pub proof fn lemma_candidates(p: Position)
    ensures
        forall|c: (usize, usize)|
            #![trigger candidates_of(p).contains(c)]
            #![trigger has_neighbor_in(p.stones(), c)]
            candidates_of(p).contains(c) <==> p.is_empty_cell(c) && has_neighbor_in(p.stones(), c),
        candidates_of(p).no_duplicates(),
        candidates_of(p).len() <= CELL_COUNT,
{
    reveal(candidates_of);
    let blanks = blank_cells(p);
    let ordered = order_spec(blanks, p.all);
    let pred = |c: (usize, usize)| has_neighbor_in(p.stones(), c);
    let cands = candidates_of(p);
    lemma_blank_cells(p);
    if p.all.len() > 0 {
        lemma_order_upto(blanks, p.all.last(), 8);
    }
    lemma_filter_no_duplicates(ordered, pred);
    ordered.lemma_filter_len(pred);
    broadcast use vstd::seq_lib::group_filter_ensures;

    assert forall|c: (usize, usize)|
        cands.contains(c) <==> p.is_empty_cell(c) && has_neighbor_in(p.stones(), c) by {
        if cands.contains(c) {
            ordered.lemma_filter_contains_rev(pred, c);
            let j = choose|j: int| 0 <= j < cands.len() && cands[j] == c;
            ordered.lemma_filter_pred(pred, j);
        }
        if p.is_empty_cell(c) && has_neighbor_in(p.stones(), c) {
            assert(ordered.contains(c));
            let k = choose|k: int| 0 <= k < ordered.len() && ordered[k] == c;
            ordered.lemma_filter_contains(pred, k);
        }
    }
}

/// The first index at which `v` holds `pt`, if it holds it.
pub fn position_of(v: &Vec<(usize, usize)>, pt: (usize, usize)) -> (found: Option<usize>)
    ensures
        match found {
            Some(i) => is_first_index(v@, pt, i as int),
            None => !v@.contains(pt),
        },
{
    let mut i: usize = 0;
    while i < v.len()
        invariant
            i <= v@.len(),
            forall|j: int| 0 <= j < i ==> v@[j] != pt,
        decreases v@.len() - i,
    {
        if v[i].0 == pt.0 && v[i].1 == pt.1 {
            return Some(i);
        }
        i += 1;
    }
    None
}

impl AI {
    /// The empty cells, row by row.
    pub fn blank_steps(&self) -> (blank_steps: Vec<(usize, usize)>)
        requires
            self.wf(),
        ensures
            blank_steps@ == blank_cells(self.position()),
    {
        let ghost pred = |c: (usize, usize)| !self.position().occupied(c);
        let ghost cells = all_cells();
        let mut blank_steps: Vec<(usize, usize)> = Vec::new();
        let mut k: usize = 0;
        proof {
            reveal(AI::wf);
            reveal(Seq::filter);
            assert(cells.take(0).filter(pred) =~= Seq::<(usize, usize)>::empty());
            self.position().lemma_stones_in_board();
        }
        while k < CELL_COUNT
            invariant
                k <= CELL_COUNT,
                self.all_steps_st.wf(),
                self.all_steps_st@ == self.position().stones(),
                cells == all_cells(),
                pred == |c: (usize, usize)| !self.position().occupied(c),
                blank_steps@ == cells.take(k as int).filter(pred),
                forall|c: (usize, usize)|
                    self.position().occupied(c) <==> self.position().stones().contains(c),
            decreases CELL_COUNT - k,
        {
            let x = k / BOARD_SIZE;
            let y = k % BOARD_SIZE;
            proof {
                cells.lemma_take_succ_push(k as int);
                cells.take(k as int).lemma_filter_push(cells[k as int], pred);
                assert(cells[k as int] == (x, y));
            }
            if !self.all_steps_st.contains(x, y) {
                blank_steps.push((x, y));
            }
            k += 1;
        }
        proof {
            assert(cells.take(CELL_COUNT as int) =~= cells);
        }
        blank_steps
    }

    /// Moves the cells of `blank_steps` that lie around the last move to
    /// the front.
    pub fn order(&self, blank_steps: &mut Vec<(usize, usize)>)
        requires
            self.wf(),
        ensures
            final(blank_steps)@ == order_spec(old(blank_steps)@, self.position().all),
    {
        if self.all_steps.is_empty() {
            return;
        }
        let last_pt = self.all_steps[self.all_steps.len() - 1];
        proof {
            reveal(AI::wf);
            self.position().lemma_stones_in_board();
            assert(in_board(self.position().all[self.position().all.len() - 1]));
        }
        let mut k: usize = 0;
        while k < 8
            invariant
                k <= 8,
                in_board(last_pt),
                blank_steps@ == order_upto(old(blank_steps)@, last_pt, k as int),
            decreases 8 - k,
        {
            let m = if k < 4 {
                k
            } else {
                k + 1
            };
            let px = last_pt.0 + m / 3;
            let py = last_pt.1 + m % 3;
            if px >= 1 && px <= BOARD_SIZE && py >= 1 && py <= BOARD_SIZE {
                let pt = (px - 1, py - 1);
                if let Some(idx) = position_of(blank_steps, pt) {
                    proof {
                        let s = blank_steps@;
                        assert(s.contains(pt));
                        assert forall|i: int| is_first_index(s, pt, i) implies i == idx by {}
                    }
                    let item = blank_steps.remove(idx);
                    blank_steps.insert(0, item);
                }
            }
            k += 1;
        }
    }

    /// Whether a stone lies on one of the eight positions around `(x, y)`.
    pub fn has_neighbor(&self, x: usize, y: usize) -> (b: bool)
        requires
            self.wf(),
        ensures
            b == has_neighbor_in(self.position().stones(), (x, y)),
    {
        if x > BOARD_SIZE || y > BOARD_SIZE {
            return false;
        }
        proof {
            reveal(AI::wf);
        }
        let mut k: usize = 0;
        while k < 8
            invariant
                k <= 8,
                x <= BOARD_SIZE,
                y <= BOARD_SIZE,
                self.all_steps_st.wf(),
                self.all_steps_st@ == self.position().stones(),
                forall|j: int|
                    0 <= j < k ==> !#[trigger] neighbor_holds(self.position().stones(), (x, y), j),
            decreases 8 - k,
        {
            let m = if k < 4 {
                k
            } else {
                k + 1
            };
            let px = x + m / 3;
            let py = y + m % 3;
            if px >= 1 && py >= 1 && self.all_steps_st.contains(px - 1, py - 1) {
                proof {
                    self.all_steps_st.lemma_members_in_board();
                }
                assert(neighbor_holds(self.position().stones(), (x, y), k as int));
                return true;
            }
            k += 1;
        }
        false
    }

    /// The cells that the search tries, in the order in which it tries
    /// them: the empty cells next to a stone, those around the last move
    /// first.
    pub fn candidates(&self) -> (cands: Vec<(usize, usize)>)
        requires
            self.wf(),
        ensures
            cands@ == candidates_of(self.position()),
            forall|c: (usize, usize)|
                cands@.contains(c) <==> self.position().is_empty_cell(c) && has_neighbor_in(
                    self.position().stones(),
                    c,
                ),
            cands@.no_duplicates(),
    {
        let mut blank_steps = self.blank_steps();
        self.order(&mut blank_steps);
        let ghost pred = |c: (usize, usize)| has_neighbor_in(self.position().stones(), c);
        let mut cands: Vec<(usize, usize)> = Vec::new();
        let mut i: usize = 0;
        proof {
            reveal(Seq::filter);
            assert(blank_steps@.take(0).filter(pred) =~= Seq::<(usize, usize)>::empty());
        }
        while i < blank_steps.len()
            invariant
                i <= blank_steps@.len(),
                self.wf(),
                pred == |c: (usize, usize)| has_neighbor_in(self.position().stones(), c),
                cands@ == blank_steps@.take(i as int).filter(pred),
            decreases blank_steps@.len() - i,
        {
            let c = blank_steps[i];
            proof {
                blank_steps@.lemma_take_succ_push(i as int);
                blank_steps@.take(i as int).lemma_filter_push(c, pred);
            }
            if self.has_neighbor(c.0, c.1) {
                cands.push(c);
            }
            i += 1;
        }
        proof {
            reveal(candidates_of);
            assert(blank_steps@.take(blank_steps@.len() as int) =~= blank_steps@);
            lemma_candidates(self.position());
        }
        cands
    }
}

} // verus!
