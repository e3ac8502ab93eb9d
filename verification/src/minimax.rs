//! What the search computes: where no two evaluated positions share a
//! fingerprint that would mix up their values, the value of a node is its
//! plain negamax value, cut to the window, and the move chosen at the root
//! is a best move.

use vstd::prelude::*;
use crate::ai::{Config, Memo};
use crate::board::CELL_COUNT;
use crate::candidates::{candidates_of, lemma_candidates};
use crate::eval::{static_value, EVAL_BOUND};
use crate::position::Position;
use crate::search::{is_leaf, window_ok, SCORE_MAX, SCORE_MIN};
use crate::search_laws::{lemma_has_candidate, lemma_static_value_bounds};

verus! {

/// The negamax value of `p` for the side to move, `depth` levels deep: at
/// a leaf the static value, else the best of the values of the candidates.
pub open spec fn minimax(p: Position, is_ai: bool, depth: nat) -> int
    decreases depth, 1nat, 0nat,
{
    if is_leaf(p, depth) {
        static_value(p, is_ai)
    } else {
        best_reply(p, is_ai, depth, candidates_of(p), 0)
    }
}

/// The greatest of the values of the candidates `cands[i..]`, where the
/// value of a candidate is the negated negamax value of the position after
/// it; the lower bound of all values where no candidate is left.
pub open spec fn best_reply(
    p: Position,
    is_ai: bool,
    depth: nat,
    cands: Seq<(usize, usize)>,
    i: int,
) -> int
    decreases depth, 0nat, cands.len() - i,
{
    if depth == 0 || i < 0 || i >= cands.len() {
        SCORE_MIN as int
    } else {
        let value = -minimax(p.place(is_ai, cands[i]), !is_ai, (depth - 1) as nat);
        let rest = best_reply(p, is_ai, depth, cands, i + 1);
        if value > rest {
            value
        } else {
            rest
        }
    }
}

/// The value of the candidate `c` of `p`: the negated negamax value of the
/// position after it.
pub open spec fn reply_value(p: Position, is_ai: bool, depth: nat, c: (usize, usize)) -> int {
    -minimax(p.place(is_ai, c), !is_ai, (depth - 1) as nat)
}

/// Whether `step` is the `j`-th candidate and its value is `best`, or is
/// `beta` or more.
pub open spec fn is_choice(
    p: Position,
    is_ai: bool,
    depth: nat,
    cands: Seq<(usize, usize)>,
    j: int,
    step: Option<(usize, usize)>,
    best: int,
    beta: int,
) -> bool {
    &&& 0 <= j < cands.len()
    &&& step == Some(cands[j])
    &&& (reply_value(p, is_ai, depth, cands[j]) == best || reply_value(p, is_ai, depth, cands[j])
        >= beta)
}

/// `v` cut to the range `lo ..= hi`.
pub open spec fn clamp(v: int, lo: int, hi: int) -> int {
    if v < lo {
        lo
    } else if v > hi {
        hi
    } else {
        v
    }
}

/// The leaf that is reached from `p` by placing, level by level, the
/// candidate with the index that `path` gives for the level, and the side
/// to move there; `None` where `path` leads to no leaf.
pub open spec fn leaf_along(p: Position, is_ai: bool, depth: nat, path: Seq<int>) -> Option<
    (Position, bool),
>
    decreases path.len(),
{
    if path.len() == 0 {
        if is_leaf(p, depth) {
            Some((p, is_ai))
        } else {
            None
        }
    } else if is_leaf(p, depth) || path[0] < 0 || path[0] >= candidates_of(p).len() {
        None
    } else {
        leaf_along(
            p.place(is_ai, candidates_of(p)[path[0]]),
            !is_ai,
            (depth - 1) as nat,
            path.drop_first(),
        )
    }
}

/// Whether the search below `p` can evaluate `q` for the side `s`: `q` is
/// a leaf of the tree of candidates below `p`, with `s` to move.
pub open spec fn is_tree_leaf(p: Position, is_ai: bool, depth: nat, q: Position, s: bool) -> bool {
    exists|path: Seq<int>| #[trigger] leaf_along(p, is_ai, depth, path) == Some((q, s))
}

/// A leaf is the one leaf of its tree.
pub proof fn lemma_leaf_is_tree_leaf(p: Position, is_ai: bool, depth: nat)
    requires
        is_leaf(p, depth),
    ensures
        is_tree_leaf(p, is_ai, depth, p, is_ai),
{
    assert(leaf_along(p, is_ai, depth, Seq::<int>::empty()) == Some((p, is_ai)));
}

/// A leaf below a candidate of `p` is a leaf below `p`.
pub proof fn lemma_leaf_below_candidate(
    p: Position,
    is_ai: bool,
    depth: nat,
    i: int,
    q: Position,
    s: bool,
)
    requires
        !is_leaf(p, depth),
        0 <= i < candidates_of(p).len(),
        is_tree_leaf(p.place(is_ai, candidates_of(p)[i]), !is_ai, (depth - 1) as nat, q, s),
    ensures
        is_tree_leaf(p, is_ai, depth, q, s),
{
    let child = p.place(is_ai, candidates_of(p)[i]);
    let other = !is_ai;
    let less = (depth - 1) as nat;
    assert(is_tree_leaf(child, other, less, q, s));
    let below = choose|path: Seq<int>| #[trigger] leaf_along(child, other, less, path) == Some((q, s));
    let path = seq![i] + below;
    assert(path[0] == i);
    assert(path.drop_first() =~= below);
    assert(leaf_along(p, is_ai, depth, path) == Some((q, s)));
}

/// A tree of positions: a root, the side to move in it and a depth.
pub struct Tree {
    pub root: Position,
    pub is_ai: bool,
    pub depth: nat,
}

impl Tree {
    /// The tree that the search for the computer's move walks.
    pub open spec fn of_root(p: Position, depth: nat) -> Tree {
        Tree { root: p, is_ai: true, depth }
    }

    /// Whether `q`, with `s` to move, is a leaf of the tree.
    pub open spec fn has_leaf(self, q: Position, s: bool) -> bool {
        is_tree_leaf(self.root, self.is_ai, self.depth, q, s)
    }

    /// Whether every leaf below `p` is a leaf of the tree.
    pub open spec fn holds_subtree(self, p: Position, is_ai: bool, depth: nat) -> bool {
        forall|q: Position, s: bool|
            is_tree_leaf(p, is_ai, depth, q, s) ==> #[trigger] self.has_leaf(q, s)
    }
}

impl Config {
    /// The cache that serves an evaluation for the side `s`.
    pub open spec fn cache_of(self, m: Memo, s: bool) -> Map<u64, i64> {
        if self.black_to_move(s) {
            m.cache_black
        } else {
            m.cache_white
        }
    }

    /// Whether the caches tell the truth about the leaves of `t`: a value
    /// on record for the fingerprint of a leaf is the static value of that
    /// leaf.
    pub open spec fn agrees(self, m: Memo, t: Tree) -> bool {
        forall|q: Position, s: bool|
            #[trigger] t.has_leaf(q, s) && self.cache_of(m, s).contains_key(self.hash_of(q))
                ==> self.cache_of(m, s)[self.hash_of(q)] == static_value(q, s)
    }

    /// Whether no two leaves of `t` with the same side to move share a
    /// fingerprint and differ in their static value.
    pub open spec fn collision_free(self, t: Tree) -> bool {
        forall|q1: Position, q2: Position, s: bool|
            #[trigger] t.has_leaf(q1, s) && #[trigger] t.has_leaf(q2, s) && self.hash_of(q1)
                == self.hash_of(q2) ==> static_value(q1, s) == static_value(q2, s)
    }

    /// Below the configured depth a search leaves the move on record as it
    /// is.
    pub proof fn lemma_next_step_kept(
        self,
        p: Position,
        m: Memo,
        is_ai: bool,
        depth: nat,
        alpha: int,
        beta: int,
    )
        requires
            depth < self.depth,
        ensures
            self.negamax_spec(p, m, is_ai, depth, alpha, beta).memo.next_step == m.next_step,
        decreases depth, 1nat, 0nat,
    {
        if !is_leaf(p, depth) {
            self.lemma_next_step_kept_scan(p, m, is_ai, depth, alpha, beta, candidates_of(p), 0);
        }
    }

    /// Below the configured depth the trial of candidates leaves the move
    /// on record as it is.
    pub proof fn lemma_next_step_kept_scan(
        self,
        p: Position,
        m: Memo,
        is_ai: bool,
        depth: nat,
        alpha: int,
        beta: int,
        cands: Seq<(usize, usize)>,
        i: int,
    )
        requires
            depth < self.depth,
        ensures
            self.scan_spec(p, m, is_ai, depth, alpha, beta, cands, i).memo.next_step
                == m.next_step,
        decreases depth, 0nat, cands.len() - i,
    {
        if !(depth == 0 || i < 0 || i >= cands.len()) {
            let q = p.place(is_ai, cands[i]);
            self.lemma_next_step_kept(q, m, !is_ai, (depth - 1) as nat, -beta, -alpha);
            let child = self.negamax_spec(q, m, !is_ai, (depth - 1) as nat, -beta, -alpha);
            let value = -child.value;
            if value > alpha {
                let after = Memo {
                    cache_black: child.memo.cache_black,
                    cache_white: child.memo.cache_white,
                    next_step: child.memo.next_step,
                };
                if value < beta {
                    self.lemma_next_step_kept_scan(p, after, is_ai, depth, value, beta, cands, i + 1);
                }
            } else {
                self.lemma_next_step_kept_scan(
                    p,
                    child.memo,
                    is_ai,
                    depth,
                    alpha,
                    beta,
                    cands,
                    i + 1,
                );
            }
        }
    }

    /// An evaluation of a leaf of `t` gives its static value and keeps the
    /// caches truthful.
    pub proof fn lemma_eval_is_static(self, t: Tree, p: Position, m: Memo, is_ai: bool)
        requires
            p.wf(),
            t.has_leaf(p, is_ai),
            self.agrees(m, t),
            self.collision_free(t),
        ensures
            self.eval_spec(p, m, is_ai).value == static_value(p, is_ai),
            self.agrees(self.eval_spec(p, m, is_ai).memo, t),
    {
        lemma_static_value_bounds(p, is_ai);
        let after = self.eval_spec(p, m, is_ai).memo;
        assert forall|q: Position, s: bool|
            #[trigger] t.has_leaf(q, s) && self.cache_of(after, s).contains_key(
                self.hash_of(q),
            ) implies self.cache_of(after, s)[self.hash_of(q)] == static_value(q, s) by {
            if s == is_ai && self.hash_of(q) == self.hash_of(p) {
                assert(t.has_leaf(p, s));
            }
        }
    }

    /// The value of a search is the negamax value of the node: as it is
    /// at a leaf, cut to the window elsewhere. The caches stay truthful.
    pub proof fn lemma_negamax_is_minimax(
        self,
        t: Tree,
        p: Position,
        m: Memo,
        is_ai: bool,
        depth: nat,
        alpha: int,
        beta: int,
    )
        requires
            p.wf(),
            t.holds_subtree(p, is_ai, depth),
            self.agrees(m, t),
            self.collision_free(t),
            window_ok(alpha, beta),
            alpha < beta,
        ensures
            self.agrees(self.negamax_spec(p, m, is_ai, depth, alpha, beta).memo, t),
            self.negamax_spec(p, m, is_ai, depth, alpha, beta).value == if is_leaf(p, depth) {
                minimax(p, is_ai, depth)
            } else {
                clamp(minimax(p, is_ai, depth), alpha, beta)
            },
        decreases depth, 1nat, 0nat,
    {
        if is_leaf(p, depth) {
            lemma_leaf_is_tree_leaf(p, is_ai, depth);
            assert(t.has_leaf(p, is_ai));
            self.lemma_eval_is_static(t, p, m, is_ai);
        } else {
            self.lemma_scan_is_minimax(t, p, m, is_ai, depth, alpha, beta, 0);
        }
    }

    /// The value of the trial of the candidates of `p` from the `i`-th on
    /// is the greatest of their values, cut to the window. The caches stay
    /// truthful.
    pub proof fn lemma_scan_is_minimax(
        self,
        t: Tree,
        p: Position,
        m: Memo,
        is_ai: bool,
        depth: nat,
        alpha: int,
        beta: int,
        i: int,
    )
        requires
            p.wf(),
            !is_leaf(p, depth),
            t.holds_subtree(p, is_ai, depth),
            self.agrees(m, t),
            self.collision_free(t),
            window_ok(alpha, beta),
            alpha < beta,
            0 <= i <= candidates_of(p).len(),
        ensures
            self.agrees(self.scan_spec(p, m, is_ai, depth, alpha, beta, candidates_of(p), i).memo, t),
            self.scan_spec(p, m, is_ai, depth, alpha, beta, candidates_of(p), i).value == clamp(
                best_reply(p, is_ai, depth, candidates_of(p), i),
                alpha,
                beta,
            ),
        decreases depth, 0nat, candidates_of(p).len() - i,
    {
        let cands = candidates_of(p);
        if i < cands.len() {
            let c = cands[i];
            let q = p.place(is_ai, c);
            lemma_candidates(p);
            assert(cands.contains(c));
            p.lemma_place(is_ai, c);
            assert(t.holds_subtree(q, !is_ai, (depth - 1) as nat)) by {
                assert forall|l: Position, s: bool|
                    is_tree_leaf(q, !is_ai, (depth - 1) as nat, l, s) implies #[trigger] t.has_leaf(
                    l,
                    s,
                ) by {
                    lemma_leaf_below_candidate(p, is_ai, depth, i, l, s);
                    assert(is_tree_leaf(p, is_ai, depth, l, s));
                }
            }
            self.lemma_negamax_is_minimax(t, q, m, !is_ai, (depth - 1) as nat, -beta, -alpha);
            let child = self.negamax_spec(q, m, !is_ai, (depth - 1) as nat, -beta, -alpha);
            let value = -child.value;
            if value > alpha {
                let after = Memo {
                    cache_black: child.memo.cache_black,
                    cache_white: child.memo.cache_white,
                    next_step: if depth == self.depth {
                        Some(c)
                    } else {
                        child.memo.next_step
                    },
                };
                assert(self.agrees(after, t)) by {
                    assert forall|l: Position, s: bool|
                        #[trigger] t.has_leaf(l, s) && self.cache_of(after, s).contains_key(
                            self.hash_of(l),
                        ) implies self.cache_of(after, s)[self.hash_of(l)] == static_value(l, s) by {
                        assert(self.cache_of(after, s) == self.cache_of(child.memo, s));
                    }
                }
                if value < beta {
                    self.lemma_scan_is_minimax(t, p, after, is_ai, depth, value, beta, i + 1);
                }
            } else {
                self.lemma_scan_is_minimax(t, p, child.memo, is_ai, depth, alpha, beta, i + 1);
            }
        }
    }

    /// At the configured depth the trial of the candidates of `p` from the
    /// `i`-th on leaves the move on record as it is where none of them has
    /// a value above `alpha`; else it puts a candidate on record whose
    /// value is the greatest of their values, or is `beta` or more.
    pub proof fn lemma_scan_records_best(
        self,
        t: Tree,
        p: Position,
        m: Memo,
        is_ai: bool,
        depth: nat,
        alpha: int,
        beta: int,
        i: int,
    )
        requires
            p.wf(),
            !is_leaf(p, depth),
            depth == self.depth,
            t.holds_subtree(p, is_ai, depth),
            self.agrees(m, t),
            self.collision_free(t),
            window_ok(alpha, beta),
            alpha < beta,
            0 <= i <= candidates_of(p).len(),
        ensures
            best_reply(p, is_ai, depth, candidates_of(p), i) <= alpha ==> self.scan_spec(
                p,
                m,
                is_ai,
                depth,
                alpha,
                beta,
                candidates_of(p),
                i,
            ).memo.next_step == m.next_step,
            best_reply(p, is_ai, depth, candidates_of(p), i) > alpha ==> exists|j: int|
                i <= j && #[trigger] is_choice(
                    p,
                    is_ai,
                    depth,
                    candidates_of(p),
                    j,
                    self.scan_spec(
                        p,
                        m,
                        is_ai,
                        depth,
                        alpha,
                        beta,
                        candidates_of(p),
                        i,
                    ).memo.next_step,
                    best_reply(p, is_ai, depth, candidates_of(p), i),
                    beta,
                ),
        decreases candidates_of(p).len() - i,
    {
        let cands = candidates_of(p);
        if i < cands.len() {
            let c = cands[i];
            let q = p.place(is_ai, c);
            let less = (depth - 1) as nat;
            lemma_candidates(p);
            assert(cands.contains(c));
            p.lemma_place(is_ai, c);
            assert(t.holds_subtree(q, !is_ai, less)) by {
                assert forall|l: Position, s: bool|
                    is_tree_leaf(q, !is_ai, less, l, s) implies #[trigger] t.has_leaf(l, s) by {
                    lemma_leaf_below_candidate(p, is_ai, depth, i, l, s);
                }
            }
            self.lemma_negamax_is_minimax(t, q, m, !is_ai, less, -beta, -alpha);
            self.lemma_next_step_kept(q, m, !is_ai, less, -beta, -alpha);
            let child = self.negamax_spec(q, m, !is_ai, less, -beta, -alpha);
            let value = -child.value;
            let reply = reply_value(p, is_ai, depth, c);
            let rest = best_reply(p, is_ai, depth, cands, i + 1);
            let best = best_reply(p, is_ai, depth, cands, i);
            let whole = self.scan_spec(p, m, is_ai, depth, alpha, beta, cands, i);
            assert(value > alpha <==> reply > alpha);
            assert(value >= beta <==> reply >= beta);
            if value > alpha {
                let after = Memo {
                    cache_black: child.memo.cache_black,
                    cache_white: child.memo.cache_white,
                    next_step: Some(c),
                };
                assert(self.agrees(after, t)) by {
                    assert forall|l: Position, s: bool|
                        #[trigger] t.has_leaf(l, s) && self.cache_of(after, s).contains_key(
                            self.hash_of(l),
                        ) implies self.cache_of(after, s)[self.hash_of(l)] == static_value(l, s) by {
                        assert(self.cache_of(after, s) == self.cache_of(child.memo, s));
                    }
                }
                if value < beta {
                    assert(value == reply);
                    self.lemma_scan_records_best(t, p, after, is_ai, depth, value, beta, i + 1);
                    if rest <= value {
                        assert(is_choice(p, is_ai, depth, cands, i, whole.memo.next_step, best, beta));
                    } else {
                        let j = choose|j: int|
                            i + 1 <= j && #[trigger] is_choice(
                                p,
                                is_ai,
                                depth,
                                cands,
                                j,
                                whole.memo.next_step,
                                rest,
                                beta,
                            );
                        assert(is_choice(p, is_ai, depth, cands, j, whole.memo.next_step, best, beta));
                    }
                } else {
                    assert(is_choice(p, is_ai, depth, cands, i, whole.memo.next_step, best, beta));
                }
            } else {
                self.lemma_scan_records_best(t, p, child.memo, is_ai, depth, alpha, beta, i + 1);
                if rest > alpha {
                    let j = choose|j: int|
                        i + 1 <= j && #[trigger] is_choice(
                            p,
                            is_ai,
                            depth,
                            cands,
                            j,
                            whole.memo.next_step,
                            rest,
                            beta,
                        );
                    assert(is_choice(p, is_ai, depth, cands, j, whole.memo.next_step, best, beta));
                }
            }
        }
    }

    /// The negamax value of a position that holds a stone and leaves room
    /// for the depth is a possible evaluation.
    pub proof fn lemma_minimax_bounds(p: Position, is_ai: bool, depth: nat)
        requires
            p.wf(),
            p.all.len() >= 1,
            depth + p.all.len() <= CELL_COUNT,
        ensures
            -EVAL_BOUND <= minimax(p, is_ai, depth) <= EVAL_BOUND,
        decreases depth, 1nat, 0nat,
    {
        if is_leaf(p, depth) {
            lemma_static_value_bounds(p, is_ai);
        } else {
            lemma_has_candidate(p);
            Self::lemma_best_reply_bounds(p, is_ai, depth, 0);
        }
    }

    /// The greatest value of the candidates of `p` from the `i`-th on is a
    /// possible evaluation where a candidate is left.
    pub proof fn lemma_best_reply_bounds(p: Position, is_ai: bool, depth: nat, i: int)
        requires
            p.wf(),
            p.all.len() >= 1,
            depth >= 1,
            depth + p.all.len() <= CELL_COUNT,
            0 <= i <= candidates_of(p).len(),
        ensures
            i < candidates_of(p).len() ==> -EVAL_BOUND <= best_reply(
                p,
                is_ai,
                depth,
                candidates_of(p),
                i,
            ) <= EVAL_BOUND,
            i == candidates_of(p).len() ==> best_reply(p, is_ai, depth, candidates_of(p), i)
                == SCORE_MIN,
        decreases depth, 0nat, candidates_of(p).len() - i,
    {
        let cands = candidates_of(p);
        if i < cands.len() {
            lemma_candidates(p);
            assert(cands.contains(cands[i]));
            p.lemma_place(is_ai, cands[i]);
            Self::lemma_minimax_bounds(p.place(is_ai, cands[i]), !is_ai, (depth - 1) as nat);
            Self::lemma_best_reply_bounds(p, is_ai, depth, i + 1);
        }
    }

    /// What the search for the computer's move finds. Let the depth be at
    /// least 1, let no side have five in a row, let the board hold a stone
    /// and have at least as many empty cells as the search is deep. Where
    /// the caches tell the truth about the leaves of the tree and no two
    /// leaves share a fingerprint and differ in value, the value of the
    /// search is the negamax value of the position, and the move chosen is
    /// a candidate whose value is that value: no candidate has a greater
    /// one.
    pub proof fn law_root_search_is_minimax(self, p: Position, m: Memo)
        requires
            p.wf(),
            self.depth >= 1,
            !is_leaf(p, self.depth as nat),
            p.all.len() >= 1,
            self.depth + p.all.len() <= CELL_COUNT,
            self.agrees(m, Tree::of_root(p, self.depth as nat)),
            self.collision_free(Tree::of_root(p, self.depth as nat)),
        ensures
            self.root_search(p, m).value == minimax(p, true, self.depth as nat),
            self.root_search(p, m).memo.next_step matches Some(c) && candidates_of(p).contains(c)
                && reply_value(p, true, self.depth as nat, c) == minimax(
                p,
                true,
                self.depth as nat,
            ),
            forall|c: (usize, usize)|
                candidates_of(p).contains(c) ==> #[trigger] reply_value(
                    p,
                    true,
                    self.depth as nat,
                    c,
                ) <= minimax(p, true, self.depth as nat),
    {
        let depth = self.depth as nat;
        let t = Tree::of_root(p, depth);
        let start = Memo { cache_black: m.cache_black, cache_white: m.cache_white, next_step: None };
        let cands = candidates_of(p);
        assert(self.agrees(start, t)) by {
            assert forall|l: Position, s: bool|
                #[trigger] t.has_leaf(l, s) && self.cache_of(start, s).contains_key(
                    self.hash_of(l),
                ) implies self.cache_of(start, s)[self.hash_of(l)] == static_value(l, s) by {
                assert(self.cache_of(start, s) == self.cache_of(m, s));
            }
        }
        Self::lemma_minimax_bounds(p, true, depth);
        self.lemma_negamax_is_minimax(t, p, start, true, depth, SCORE_MIN as int, SCORE_MAX as int);
        self.lemma_scan_records_best(t, p, start, true, depth, SCORE_MIN as int, SCORE_MAX as int, 0);
        let found = self.root_search(p, m);
        let best = minimax(p, true, depth);
        let j = choose|j: int|
            0 <= j && #[trigger] is_choice(
                p,
                true,
                depth,
                cands,
                j,
                found.memo.next_step,
                best,
                SCORE_MAX as int,
            );
        assert(cands.contains(cands[j]));
        lemma_candidates(p);
        p.lemma_place(true, cands[j]);
        Self::lemma_minimax_bounds(p.place(true, cands[j]), false, (depth - 1) as nat);
        assert forall|c: (usize, usize)| cands.contains(c) implies #[trigger] reply_value(
            p,
            true,
            depth,
            c,
        ) <= best by {
            let k = choose|k: int| 0 <= k < cands.len() && cands[k] == c;
            Self::lemma_best_reply_covers(p, true, depth, 0, k);
        }
    }

    /// The greatest value of the candidates from the `i`-th on is at least
    /// the value of each of them.
    pub proof fn lemma_best_reply_covers(p: Position, is_ai: bool, depth: nat, i: int, k: int)
        requires
            depth >= 1,
            0 <= i <= k < candidates_of(p).len(),
        ensures
            reply_value(p, is_ai, depth, candidates_of(p)[k]) <= best_reply(
                p,
                is_ai,
                depth,
                candidates_of(p),
                i,
            ),
        decreases k - i,
    {
        if i < k {
            Self::lemma_best_reply_covers(p, is_ai, depth, i + 1, k);
        }
    }
}

} // verus!
