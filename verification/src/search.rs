//! Depth-limited negamax with alpha-beta pruning.

use vstd::prelude::*;
use crate::ai::{Config, GameState, Memo, AI};
use crate::candidates::{candidates_of, has_neighbor_in, lemma_candidates};
use crate::eval::Found;
use crate::position::Position;
use crate::win::has_five;

verus! {

/// The lower bound of the root window, and the least value a search takes.
pub const SCORE_MIN: i64 = -4_611_686_018_427_387_904;

/// The upper bound of the root window.
pub const SCORE_MAX: i64 = 4_611_686_018_427_387_903;

/// Whether the search stops at `p`: a side has five in a row, or no depth
/// is left.
pub open spec fn is_leaf(p: Position, depth: nat) -> bool {
    has_five(p.ai_stones()) || has_five(p.human_stones()) || depth == 0
}

/// Whether `alpha` and `beta` can bound a window: neither is out of the
/// range in which negation is safe.
pub open spec fn window_ok(alpha: int, beta: int) -> bool {
    SCORE_MIN <= alpha <= -SCORE_MIN && SCORE_MIN <= beta <= -SCORE_MIN
}

impl Config {
    /// The search of `p` with the given side to move: at a leaf the
    /// evaluation of `p`, else the outcome of trying the candidates of `p`
    /// in turn.
    pub open spec fn negamax_spec(
        self,
        p: Position,
        m: Memo,
        is_ai: bool,
        depth: nat,
        alpha: int,
        beta: int,
    ) -> Found
        decreases depth, 1nat, 0nat,
    {
        if is_leaf(p, depth) {
            self.eval_spec(p, m, is_ai)
        } else {
            self.scan_spec(p, m, is_ai, depth, alpha, beta, candidates_of(p), 0)
        }
    }

    /// The outcome of trying the candidates `cands[i..]` of `p` in turn.
    ///
    /// Each is placed and the position searched for the other side, one
    /// level less deep, in the negated window; the value of the candidate
    /// is the negation of what comes back. A value above `alpha` raises
    /// `alpha`, and at the root puts the candidate on record; a value of
    /// `beta` or more ends the node with `beta`. With no candidate left
    /// the node's value is `alpha`.
    pub open spec fn scan_spec(
        self,
        p: Position,
        m: Memo,
        is_ai: bool,
        depth: nat,
        alpha: int,
        beta: int,
        cands: Seq<(usize, usize)>,
        i: int,
    ) -> Found
        decreases depth, 0nat, cands.len() - i,
    {
        if depth == 0 || i < 0 || i >= cands.len() {
            Found { value: alpha, memo: m }
        } else {
            let child = self.negamax_spec(
                p.place(is_ai, cands[i]),
                m,
                !is_ai,
                (depth - 1) as nat,
                -beta,
                -alpha,
            );
            let value = -child.value;
            if value > alpha {
                let after = Memo {
                    cache_black: child.memo.cache_black,
                    cache_white: child.memo.cache_white,
                    next_step: if depth == self.depth {
                        Some(cands[i])
                    } else {
                        child.memo.next_step
                    },
                };
                if value >= beta {
                    Found { value: beta, memo: after }
                } else {
                    self.scan_spec(p, after, is_ai, depth, value, beta, cands, i + 1)
                }
            } else {
                self.scan_spec(p, child.memo, is_ai, depth, alpha, beta, cands, i + 1)
            }
        }
    }

    /// The search that chooses the computer's move in `p`: to the
    /// configured depth, in the widest window, with no move on record.
    pub open spec fn root_search(self, p: Position, m: Memo) -> Found {
        self.negamax_spec(
            p,
            Memo { cache_black: m.cache_black, cache_white: m.cache_white, next_step: None },
            true,
            self.depth as nat,
            SCORE_MIN as int,
            SCORE_MAX as int,
        )
    }
}

impl AI {
    /// Whether the search for the computer's move puts a move on record. It
    /// puts none on record on a board without stones, once a side has five
    /// in a row, and at depth 0.
    pub open spec fn search_finds_move(&self) -> bool {
        self.config().root_search(self.position(), self.memo()).memo.next_step.is_some()
    }

    /// Searches the position for the given side to move, `depth` levels
    /// deep, in the window `(alpha, beta)`.
    ///
    /// The stones are the same after the call as before it.
    pub fn negamax(&mut self, is_ai: bool, depth: usize, alpha: i64, beta: i64) -> (value: i64)
        requires
            old(self).wf(),
            window_ok(alpha as int, beta as int),
        ensures
            final(self).wf(),
            final(self).position() == old(self).position(),
            final(self).config() == old(self).config(),
            final(self).outcome() == old(self).outcome(),
            value == old(self).config().negamax_spec(
                old(self).position(),
                old(self).memo(),
                is_ai,
                depth as nat,
                alpha as int,
                beta as int,
            ).value,
            final(self).memo() == old(self).config().negamax_spec(
                old(self).position(),
                old(self).memo(),
                is_ai,
                depth as nat,
                alpha as int,
                beta as int,
            ).memo,
            SCORE_MIN <= value <= -SCORE_MIN,
            depth < old(self).config().depth ==> final(self).memo().next_step == old(
                self,
            ).memo().next_step,
            depth == old(self).config().depth ==> final(self).memo().next_step == old(
                self,
            ).memo().next_step || (final(self).memo().next_step matches Some(c)
                && candidates_of(old(self).position()).contains(c)),
        decreases depth, 1nat,
    {
        if self.ai_has_five() || self.human_has_five() || depth == 0 {
            return self.evalution(is_ai);
        }
        let cands = self.candidates();
        proof {
            lemma_candidates(self.position());
        }
        let ghost env = self.config();
        let ghost p = self.position();
        let ghost m0 = self.memo();
        let mut best = alpha;
        let mut i: usize = 0;
        while i < cands.len()
            invariant
                i <= cands@.len(),
                depth > 0,
                self.wf(),
                self.position() == p,
                self.config() == env,
                self.outcome() == old(self).outcome(),
                old(self).memo() == m0,
                old(self).config() == env,
                old(self).position() == p,
                cands@ == candidates_of(p),
                forall|j: int| 0 <= j < cands@.len() ==> p.is_empty_cell(#[trigger] cands@[j]),
                window_ok(best as int, beta as int),
                !is_leaf(p, depth as nat),
                env.scan_spec(
                    p,
                    self.memo(),
                    is_ai,
                    depth as nat,
                    best as int,
                    beta as int,
                    cands@,
                    i as int,
                ) == env.negamax_spec(p, m0, is_ai, depth as nat, alpha as int, beta as int),
                depth < env.depth ==> self.memo().next_step == m0.next_step,
                depth == env.depth ==> self.memo().next_step == m0.next_step || (
                self.memo().next_step matches Some(c) && cands@.contains(c)),
            decreases cands@.len() - i,
        {
            let tx = cands[i].0;
            let ty = cands[i].1;
            let value = self.try_step(is_ai, depth, best, beta, tx, ty);
            if value > best {
                if depth == self.depth() {
                    self.set_next_step(Some((tx, ty)));
                }
                if value >= beta {
                    return beta;
                }
                best = value;
            }
            i += 1;
        }
        best
    }

    /// The value of the empty cell `(tx, ty)` as the next move of the given
    /// side: the stone is placed, the position searched for the other
    /// side, one level less deep, in the negated window, and the stone
    /// taken back; the value is the negation of what the search returned.
    pub fn try_step(
        &mut self,
        is_ai: bool,
        depth: usize,
        alpha: i64,
        beta: i64,
        tx: usize,
        ty: usize,
    ) -> (value: i64)
        requires
            old(self).wf(),
            old(self).position().is_empty_cell((tx, ty)),
            depth > 0,
            window_ok(alpha as int, beta as int),
        ensures
            final(self).wf(),
            final(self).position() == old(self).position(),
            final(self).config() == old(self).config(),
            final(self).outcome() == old(self).outcome(),
            value == -old(self).config().negamax_spec(
                old(self).position().place(is_ai, (tx, ty)),
                old(self).memo(),
                !is_ai,
                (depth - 1) as nat,
                -beta,
                -alpha,
            ).value,
            final(self).memo() == old(self).config().negamax_spec(
                old(self).position().place(is_ai, (tx, ty)),
                old(self).memo(),
                !is_ai,
                (depth - 1) as nat,
                -beta,
                -alpha,
            ).memo,
            SCORE_MIN <= value <= -SCORE_MIN,
            depth <= old(self).config().depth ==> final(self).memo().next_step == old(
                self,
            ).memo().next_step,
        decreases depth, 0nat,
    {
        proof {
            old(self).lemma_wf_parts();
            old(self).position().lemma_place(is_ai, (tx, ty));
            old(self).position().lemma_place_undo(is_ai, (tx, ty));
        }
        if is_ai {
            self.ai_step(tx, ty);
        } else {
            self.human_step(tx, ty);
        }
        let child = self.negamax(!is_ai, depth - 1, -beta, -alpha);
        if is_ai {
            self.undo_ai_step(tx, ty);
        } else {
            self.undo_human_step(tx, ty);
        }
        -child
    }

    /// Searches for the computer's move and commits it.
    ///
    /// The search must put a move on record: it does so wherever the depth
    /// is at least 1, no side has five in a row, the board holds a stone
    /// and has at least as many empty cells as the search is deep (see
    /// `law_search_finds_move`). `try_ai` asks for nothing.
    pub fn ai(&mut self) -> (step: (usize, usize))
        requires
            old(self).wf(),
            old(self).search_finds_move(),
        ensures
            final(self).wf(),
            Some(step) == old(self).config().root_search(
                old(self).position(),
                old(self).memo(),
            ).memo.next_step,
            old(self).position().is_empty_cell(step),
            has_neighbor_in(old(self).position().stones(), step),
            final(self).position() == old(self).position().place(true, step),
            final(self).config() == old(self).config(),
            final(self).outcome() == old(self).outcome(),
            final(self).memo() == old(self).config().root_search(
                old(self).position(),
                old(self).memo(),
            ).memo,
    {
        match self.try_ai() {
            Some(step) => step,
            None => vstd::pervasive::unreached(),
        }
    }

    /// Searches for the computer's move and, where the search puts one on
    /// record, commits it. Where it does not, the stones stay as they are.
    pub fn try_ai(&mut self) -> (found: Option<(usize, usize)>)
        requires
            old(self).wf(),
        ensures
            final(self).wf(),
            found == old(self).config().root_search(
                old(self).position(),
                old(self).memo(),
            ).memo.next_step,
            found matches Some(step) ==> old(self).position().is_empty_cell(step)
                && has_neighbor_in(old(self).position().stones(), step) && final(self).position()
                == old(self).position().place(true, step),
            found.is_none() ==> final(self).position() == old(self).position(),
            final(self).config() == old(self).config(),
            final(self).outcome() == old(self).outcome(),
            final(self).memo() == old(self).config().root_search(
                old(self).position(),
                old(self).memo(),
            ).memo,
    {
        self.set_next_step(None);
        let depth = self.depth();
        self.negamax(true, depth, SCORE_MIN, SCORE_MAX);
        proof {
            lemma_candidates(self.position());
        }
        match self.next_step() {
            Some(step) => {
                self.ai_step(step.0, step.1);
                Some(step)
            },
            None => None,
        }
    }

    /// Whether a side has five in a row; if so, puts the winner on record.
    pub fn is_game_over(&mut self) -> (over: bool)
        requires
            old(self).wf(),
        ensures
            final(self).wf(),
            final(self).position() == old(self).position(),
            final(self).config() == old(self).config(),
            final(self).memo() == old(self).memo(),
            over == (has_five(old(self).position().ai_stones()) || has_five(
                old(self).position().human_stones(),
            )),
            final(self).outcome() == if has_five(old(self).position().ai_stones()) {
                GameState::AI
            } else if has_five(old(self).position().human_stones()) {
                GameState::Human
            } else {
                old(self).outcome()
            },
    {
        if self.ai_has_five() {
            self.set_state(GameState::AI);
            return true;
        } else if self.human_has_five() {
            self.set_state(GameState::Human);
            return true;
        }
        false
    }
}

} // verus!
