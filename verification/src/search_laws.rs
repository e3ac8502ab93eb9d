//! What holds of every search: its values stay inside the window of the
//! root, and it chooses a move wherever the board leaves room for its depth.

use vstd::prelude::*;
use crate::ai::{lemma_len_on_board, Config, Memo, AI};
use crate::board::{in_board, CELL_COUNT};
use crate::candidates::{
    all_cells, candidates_of, has_neighbor_in, lemma_candidates, neighbor, neighbor_holds,
};
use crate::eval::{lemma_score_prefix_bounds, static_value, EVAL_BOUND};
use crate::position::Position;
use crate::search::{is_leaf, window_ok, SCORE_MIN};

verus! {

/// The larger of the distances between two cells along the rows and along
/// the columns.
pub open spec fn king_distance(a: (usize, usize), b: (usize, usize)) -> int {
    let rows = if a.0 >= b.0 {
        a.0 - b.0
    } else {
        b.0 - a.0
    };
    let cols = if a.1 >= b.1 {
        a.1 - b.1
    } else {
        b.1 - a.1
    };
    if rows >= cols {
        rows
    } else {
        cols
    }
}

/// -1, 0 or 1 as `to` is less than, equal to or greater than `from`.
pub open spec fn toward(from: usize, to: usize) -> int {
    if to > from {
        1
    } else if to < from {
        -1
    } else {
        0
    }
}

/// A stone on the position `(c.0 + di, c.1 + dj)` is a neighbour of `c`.
pub proof fn lemma_neighbor_at(stones: Set<(usize, usize)>, c: (usize, usize), di: int, dj: int)
    requires
        -1 <= di <= 1,
        -1 <= dj <= 1,
        di != 0 || dj != 0,
        crate::win::holds(stones, c.0 + di, c.1 + dj),
    ensures
        has_neighbor_in(stones, c),
{
    let m = (di + 1) * 3 + (dj + 1);
    let k = if m < 4 {
        m
    } else {
        m - 1
    };
    assert(neighbor(c, k) == (c.0 + di, c.1 + dj));
    assert(neighbor_holds(stones, c, k));
}

/// On the way from an empty cell to a stone lies an empty cell next to a
/// stone.
pub proof fn lemma_walk(p: Position, stone: (usize, usize), e: (usize, usize))
    requires
        in_board(stone),
        p.occupied(stone),
        p.is_empty_cell(e),
    ensures
        exists|c: (usize, usize)| p.is_empty_cell(c) && has_neighbor_in(p.stones(), c),
    decreases king_distance(stone, e),
{
    let di = toward(e.0, stone.0);
    let dj = toward(e.1, stone.1);
    let n = ((e.0 + di) as usize, (e.1 + dj) as usize);
    assert(in_board(n));
    assert(n != e);
    if p.occupied(n) {
        assert(p.stones().contains(n));
        lemma_neighbor_at(p.stones(), e, di, dj);
    } else {
        lemma_walk(p, stone, n);
    }
}

/// The cells of the grid, row by row, are 225 different cells.
pub proof fn lemma_all_cells()
    ensures
        all_cells().no_duplicates(),
        all_cells().len() == CELL_COUNT,
        forall|i: int| 0 <= i < all_cells().len() ==> in_board(#[trigger] all_cells()[i]),
{
    let cells = all_cells();
    assert forall|i: int, j: int| 0 <= i < cells.len() && 0 <= j < cells.len() && i != j implies cells[i]
        != cells[j] by {
        assert(crate::board::cell_at(i) != crate::board::cell_at(j));
    }
}

/// A position with fewer stones than the grid has cells has an empty cell.
pub proof fn lemma_has_empty_cell(p: Position)
    requires
        p.all.len() < CELL_COUNT,
    ensures
        exists|c: (usize, usize)| p.is_empty_cell(c),
{
    if !exists|c: (usize, usize)| p.is_empty_cell(c) {
        assert forall|c: (usize, usize)| in_board(c) implies p.occupied(c) by {
            if !p.occupied(c) {
                assert(p.is_empty_cell(c));
            }
        }
        let cells = all_cells();
        lemma_all_cells();
        cells.unique_seq_to_set();
        p.all.lemma_cardinality_of_set();
        vstd::seq_lib::seq_to_set_is_finite(p.all);
        assert(cells.to_set().subset_of(p.all.to_set())) by {
            assert forall|c: (usize, usize)| cells.to_set().contains(c) implies p.all.to_set().contains(
                c,
            ) by {
                let i = choose|i: int| 0 <= i < cells.len() && cells[i] == c;
                assert(in_board(cells[i]));
            }
        }
        vstd::set_lib::lemma_len_subset(cells.to_set(), p.all.to_set());
    }
}

/// A position that holds a stone and has an empty cell has a candidate.
pub proof fn lemma_has_candidate(p: Position)
    requires
        p.wf(),
        1 <= p.all.len() < CELL_COUNT,
    ensures
        candidates_of(p).len() > 0,
{
    lemma_has_empty_cell(p);
    let e = choose|c: (usize, usize)| p.is_empty_cell(c);
    let stone = p.all[0];
    assert(p.all.contains(stone));
    lemma_walk(p, stone, e);
    let c = choose|c: (usize, usize)| p.is_empty_cell(c) && has_neighbor_in(p.stones(), c);
    lemma_candidates(p);
    assert(candidates_of(p).contains(c));
}

/// The stones of each side of a well-formed position lie on the grid and
/// are no more than the grid has cells.
pub proof fn lemma_side_counts(p: Position, is_ai: bool)
    requires
        p.wf(),
    ensures
        p.all.len() <= CELL_COUNT,
        p.steps_of(is_ai).len() <= CELL_COUNT,
        forall|i: int| 0 <= i < p.steps_of(is_ai).len() ==> in_board(#[trigger] p.steps_of(is_ai)[i]),
{
    p.lemma_stones_in_board();
    lemma_len_on_board(p.all);
    let s = p.steps_of(is_ai);
    assert forall|i: int| 0 <= i < s.len() implies in_board(#[trigger] s[i]) by {
        assert(s.contains(s[i]));
        assert(p.stones_of(is_ai).contains(s[i]));
    }
    lemma_len_on_board(s);
}

/// The static value of a well-formed position is a possible evaluation.
pub proof fn lemma_static_value_bounds(p: Position, is_ai: bool)
    requires
        p.wf(),
    ensures
        -EVAL_BOUND <= static_value(p, is_ai) <= EVAL_BOUND,
{
    reveal(static_value);
    lemma_side_counts(p, is_ai);
    lemma_side_counts(p, !is_ai);
    let mine = p.steps_of(is_ai);
    let theirs = p.steps_of(!is_ai);
    lemma_score_prefix_bounds(mine, p.stones_of(is_ai), p.stones_of(!is_ai), mine.len() as int);
    lemma_score_prefix_bounds(theirs, p.stones_of(!is_ai), p.stones_of(is_ai), theirs.len() as int);
}

impl Config {
    /// An evaluation is within bounds, keeps the caches well formed and
    /// leaves the move on record as it is.
    pub proof fn lemma_eval(self, p: Position, m: Memo, is_ai: bool)
        requires
            p.wf(),
            m.wf(),
        ensures
            -EVAL_BOUND <= self.eval_spec(p, m, is_ai).value <= EVAL_BOUND,
            self.eval_spec(p, m, is_ai).memo.wf(),
            self.eval_spec(p, m, is_ai).memo.next_step == m.next_step,
    {
        lemma_static_value_bounds(p, is_ai);
    }

    /// Of a search where the board leaves room for its depth.
    ///
    /// Its value lies strictly inside the range of the widest window. Below
    /// the configured depth it leaves the move on record as it is; at the
    /// configured depth it keeps a move on record once there is one, and
    /// puts one on record where the node is no leaf and `alpha` is the
    /// lower bound of that range.
    pub proof fn lemma_negamax(
        self,
        p: Position,
        m: Memo,
        is_ai: bool,
        depth: nat,
        alpha: int,
        beta: int,
    )
        requires
            p.wf(),
            m.wf(),
            window_ok(alpha, beta),
            alpha < beta,
            p.all.len() >= 1,
            depth + p.all.len() <= CELL_COUNT,
        ensures
            self.negamax_spec(p, m, is_ai, depth, alpha, beta).memo.wf(),
            SCORE_MIN < self.negamax_spec(p, m, is_ai, depth, alpha, beta).value < -SCORE_MIN,
            depth < self.depth ==> self.negamax_spec(p, m, is_ai, depth, alpha, beta).memo.next_step
                == m.next_step,
            depth == self.depth && m.next_step.is_some() ==> self.negamax_spec(
                p,
                m,
                is_ai,
                depth,
                alpha,
                beta,
            ).memo.next_step.is_some(),
            depth == self.depth && !is_leaf(p, depth) && alpha == SCORE_MIN ==> self.negamax_spec(
                p,
                m,
                is_ai,
                depth,
                alpha,
                beta,
            ).memo.next_step.is_some(),
        decreases depth, 1nat, 0nat,
    {
        if is_leaf(p, depth) {
            self.lemma_eval(p, m, is_ai);
        } else {
            lemma_has_candidate(p);
            lemma_candidates(p);
            let cands = candidates_of(p);
            assert forall|j: int| 0 <= j < cands.len() implies p.is_empty_cell(
                #[trigger] cands[j],
            ) by {
                assert(cands.contains(cands[j]));
            }
            self.lemma_scan(p, m, is_ai, depth, alpha, beta, cands, 0);
        }
    }

    /// Of the trial of the candidates `cands[i..]` where the board leaves
    /// room for the depth: the value lies in `alpha ..= beta` and below the
    /// upper end of the widest window, and above its lower end where
    /// `alpha` is or a candidate is left.
    pub proof fn lemma_scan(
        self,
        p: Position,
        m: Memo,
        is_ai: bool,
        depth: nat,
        alpha: int,
        beta: int,
        cands: Seq<(usize, usize)>,
        i: int,
    )
        requires
            p.wf(),
            m.wf(),
            window_ok(alpha, beta),
            alpha < beta,
            depth >= 1,
            p.all.len() >= 1,
            depth + p.all.len() <= CELL_COUNT,
            0 <= i <= cands.len(),
            forall|j: int| 0 <= j < cands.len() ==> p.is_empty_cell(#[trigger] cands[j]),
        ensures
            self.scan_spec(p, m, is_ai, depth, alpha, beta, cands, i).memo.wf(),
            alpha <= self.scan_spec(p, m, is_ai, depth, alpha, beta, cands, i).value <= beta,
            self.scan_spec(p, m, is_ai, depth, alpha, beta, cands, i).value < -SCORE_MIN,
            alpha > SCORE_MIN || i < cands.len() ==> self.scan_spec(
                p,
                m,
                is_ai,
                depth,
                alpha,
                beta,
                cands,
                i,
            ).value > SCORE_MIN,
            depth < self.depth ==> self.scan_spec(
                p,
                m,
                is_ai,
                depth,
                alpha,
                beta,
                cands,
                i,
            ).memo.next_step == m.next_step,
            depth == self.depth && m.next_step.is_some() ==> self.scan_spec(
                p,
                m,
                is_ai,
                depth,
                alpha,
                beta,
                cands,
                i,
            ).memo.next_step.is_some(),
            depth == self.depth && alpha == SCORE_MIN && i < cands.len() ==> self.scan_spec(
                p,
                m,
                is_ai,
                depth,
                alpha,
                beta,
                cands,
                i,
            ).memo.next_step.is_some(),
        decreases depth, 0nat, cands.len() - i,
    {
        if i < cands.len() {
            let c = cands[i];
            let q = p.place(is_ai, c);
            p.lemma_place(is_ai, c);
            self.lemma_negamax(q, m, !is_ai, (depth - 1) as nat, -beta, -alpha);
            let child = self.negamax_spec(q, m, !is_ai, (depth - 1) as nat, -beta, -alpha);
            let value = -child.value;
            if value > alpha {
                let after = Memo {
                    cache_black: child.memo.cache_black,
                    cache_white: child.memo.cache_white,
                    next_step: if depth == self.depth {
                        Some(c)
                    } else {
                        child.memo.next_step
                    },
                };
                if value < beta {
                    self.lemma_scan(p, after, is_ai, depth, value, beta, cands, i + 1);
                }
            } else {
                self.lemma_scan(p, child.memo, is_ai, depth, alpha, beta, cands, i + 1);
            }
        }
    }

    /// The search for the computer's move chooses a move wherever the
    /// depth is at least 1, no side has five in a row, the board holds a
    /// stone and has at least as many empty cells as the search is deep.
    pub proof fn law_root_search_finds_move(self, p: Position, m: Memo)
        requires
            p.wf(),
            m.wf(),
            self.depth >= 1,
            !crate::win::has_five(p.ai_stones()),
            !crate::win::has_five(p.human_stones()),
            p.all.len() >= 1,
            self.depth + p.all.len() <= CELL_COUNT,
        ensures
            self.root_search(p, m).memo.next_step.is_some(),
    {
        let start = Memo { cache_black: m.cache_black, cache_white: m.cache_white, next_step: None };
        self.lemma_negamax(
            p,
            start,
            true,
            self.depth as nat,
            SCORE_MIN as int,
            crate::search::SCORE_MAX as int,
        );
    }
}

/// Whether `after` holds every entry of `before`, with its value.
pub open spec fn keeps_entries(before: Map<u64, i64>, after: Map<u64, i64>) -> bool {
    forall|k: u64| #[trigger]
        before.contains_key(k) ==> after.contains_key(k) && after[k] == before[k]
}

/// Whether the caches of `after` hold every entry of those of `before`.
pub open spec fn keeps_caches(before: Memo, after: Memo) -> bool {
    keeps_entries(before.cache_black, after.cache_black) && keeps_entries(
        before.cache_white,
        after.cache_white,
    )
}

impl Config {
    /// An entry of a cache is never changed or taken out: after a search
    /// the caches hold what they held before it, and what the search
    /// added.
    pub proof fn law_search_keeps_caches(
        self,
        p: Position,
        m: Memo,
        is_ai: bool,
        depth: nat,
        alpha: int,
        beta: int,
    )
        ensures
            keeps_caches(m, self.negamax_spec(p, m, is_ai, depth, alpha, beta).memo),
        decreases depth, 1nat, 0nat,
    {
        if !is_leaf(p, depth) {
            self.lemma_scan_keeps_caches(p, m, is_ai, depth, alpha, beta, candidates_of(p), 0);
        }
    }

    /// The trial of candidates keeps the entries of the caches.
    pub proof fn lemma_scan_keeps_caches(
        self,
        p: Position,
        m: Memo,
        is_ai: bool,
        depth: nat,
        alpha: int,
        beta: int,
        cands: Seq<(usize, usize)>,
        i: int,
    )
        ensures
            keeps_caches(m, self.scan_spec(p, m, is_ai, depth, alpha, beta, cands, i).memo),
        decreases depth, 0nat, cands.len() - i,
    {
        if !(depth == 0 || i < 0 || i >= cands.len()) {
            let q = p.place(is_ai, cands[i]);
            self.law_search_keeps_caches(q, m, !is_ai, (depth - 1) as nat, -beta, -alpha);
            let child = self.negamax_spec(q, m, !is_ai, (depth - 1) as nat, -beta, -alpha);
            let value = -child.value;
            if value > alpha {
                let after = Memo {
                    cache_black: child.memo.cache_black,
                    cache_white: child.memo.cache_white,
                    next_step: if depth == self.depth {
                        Some(cands[i])
                    } else {
                        child.memo.next_step
                    },
                };
                if value < beta {
                    self.lemma_scan_keeps_caches(p, after, is_ai, depth, value, beta, cands, i + 1);
                }
            } else {
                self.lemma_scan_keeps_caches(
                    p,
                    child.memo,
                    is_ai,
                    depth,
                    alpha,
                    beta,
                    cands,
                    i + 1,
                );
            }
        }
    }
}

impl Config {
    /// The search for the computer's move chooses none on a board without
    /// stones, once a side has five in a row, and at depth 0.
    pub proof fn law_root_search_finds_no_move(self, p: Position, m: Memo)
        requires
            p.wf(),
            is_leaf(p, self.depth as nat) || p.all.len() == 0,
        ensures
            self.root_search(p, m).memo.next_step.is_none(),
    {
        if !is_leaf(p, self.depth as nat) {
            let cands = candidates_of(p);
            lemma_candidates(p);
            if cands.len() > 0 {
                let c = cands[0];
                assert(cands.contains(c));
                let k = choose|k: int| 0 <= k < 8 && #[trigger] neighbor_holds(p.stones(), c, k);
                let stone = (neighbor(c, k).0 as usize, neighbor(c, k).1 as usize);
                assert(p.stones().contains(stone));
                assert(p.all.contains(stone));
            }
        }
    }
}

impl AI {
    /// `ai` can be called wherever the depth is at least 1, no side has
    /// five in a row, the board holds a stone and has at least as many
    /// empty cells as the search is deep.
    pub proof fn law_search_finds_move(&self)
        requires
            self.wf(),
            self.config().depth >= 1,
            !crate::win::has_five(self.position().ai_stones()),
            !crate::win::has_five(self.position().human_stones()),
            self.position().all.len() >= 1,
            self.config().depth + self.position().all.len() <= CELL_COUNT,
        ensures
            self.search_finds_move(),
    {
        self.lemma_wf_parts();
        self.config().law_root_search_finds_move(self.position(), self.memo());
    }
}

} // verus!
