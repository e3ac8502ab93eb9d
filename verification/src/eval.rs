//! The heuristic value of a position for one side.

use vstd::prelude::*;
use crate::ai::{Config, Memo, AI};
use crate::board::{in_board, CellSet, CELL_COUNT};
use crate::position::Position;
use crate::shape::{
    along, best_window, best_window_upto, cal_score_spec, classify, combo_bonus, five_shape,
    is_direction, lemma_best_window_wf, lemma_combo_bonus_bounds, offset_score, records_wf,
    six_shape, ScoredWindow, COMBO_THRESHOLD, MAX_RECORDS,
};

verus! {

/// No stone adds more than this along one line: a five, and a bonus of two
/// fives with each window on record.
pub const LINE_BOUND: i64 = 180_099_998_199;

/// No side's total is above this: `LINE_BOUND` for each cell and direction.
pub const SIDE_BOUND: i64 = 162_089_998_379_100;

/// No evaluation lies outside `-EVAL_BOUND ..= EVAL_BOUND`.
pub const EVAL_BOUND: i64 = 1_000_000_000_000_000;

/// Whether every value that the cache holds is a possible evaluation.
pub open spec fn cache_bounded(cache: Map<u64, i64>) -> bool {
    forall|k: u64| cache.contains_key(k) ==> -EVAL_BOUND <= #[trigger] cache[k] <= EVAL_BOUND
}

/// The total of the first `n` stones of `steps`, each scored along the
/// four directions in turn, and the windows on record after them.
pub open spec fn score_prefix(
    steps: Seq<(usize, usize)>,
    mine: Set<(usize, usize)>,
    enemy: Set<(usize, usize)>,
    n: int,
) -> (int, Seq<ScoredWindow>)
    decreases n,
{
    if n <= 0 {
        (0, Seq::empty())
    } else {
        let before = score_prefix(steps, mine, enemy, n - 1);
        let x = steps[n - 1].0 as int;
        let y = steps[n - 1].1 as int;
        let right = cal_score_spec(mine, enemy, before.1, x, y, 0, 1);
        let down = cal_score_spec(mine, enemy, right.1, x, y, 1, 0);
        let diagonal = cal_score_spec(mine, enemy, down.1, x, y, 1, 1);
        let anti = cal_score_spec(mine, enemy, diagonal.1, x, y, 1, -1);
        (before.0 + right.0 + down.0 + diagonal.0 + anti.0, anti.1)
    }
}

/// The total of a side: its stones in the order of play, each scored along
/// the four directions.
pub open spec fn side_total(
    steps: Seq<(usize, usize)>,
    mine: Set<(usize, usize)>,
    enemy: Set<(usize, usize)>,
) -> int {
    score_prefix(steps, mine, enemy, steps.len() as int).0
}

/// The mover's total less a tenth of the other side's, rounded towards 0.
pub open spec fn net_score(mine: int, enemy: int) -> int {
    let tenths = 10 * mine - enemy;
    if tenths >= 0 {
        tenths / 10
    } else {
        -((-tenths) / 10)
    }
}

/// The heuristic value of the position `p` for the given side.
#[verifier::opaque]
pub open spec fn static_value(p: Position, is_ai: bool) -> int {
    net_score(
        side_total(p.steps_of(is_ai), p.stones_of(is_ai), p.stones_of(!is_ai)),
        side_total(p.steps_of(!is_ai), p.stones_of(!is_ai), p.stones_of(is_ai)),
    )
}

/// The outcome of a search, or of a part of one: the value found and what
/// the search leaves behind.
pub struct Found {
    pub value: int,
    pub memo: Memo,
}

impl Config {
    /// Whether an evaluation for the given side uses the black cache.
    pub open spec fn black_to_move(self, is_ai: bool) -> bool {
        is_ai == self.ai_black
    }

    /// An evaluation of `p` for the side to move: the value on record for
    /// the fingerprint of `p` where there is one, else the static value of
    /// `p`, which then goes on record.
    pub open spec fn eval_spec(self, p: Position, m: Memo, is_ai: bool) -> Found {
        let key = self.hash_of(p);
        if self.black_to_move(is_ai) {
            let value = if m.cache_black.contains_key(key) {
                m.cache_black[key] as int
            } else {
                static_value(p, is_ai)
            };
            Found {
                value,
                memo: Memo {
                    cache_black: m.cache_black.insert(key, value as i64),
                    cache_white: m.cache_white,
                    next_step: m.next_step,
                },
            }
        } else {
            let value = if m.cache_white.contains_key(key) {
                m.cache_white[key] as int
            } else {
                static_value(p, is_ai)
            };
            Found {
                value,
                memo: Memo {
                    cache_black: m.cache_black,
                    cache_white: m.cache_white.insert(key, value as i64),
                    next_step: m.next_step,
                },
            }
        }
    }
}

/// A window of no value earns no bonus.
pub proof fn lemma_no_bonus_below_threshold(records: Seq<ScoredWindow>, w: ScoredWindow)
    requires
        w.score <= COMBO_THRESHOLD,
    ensures
        combo_bonus(records, w) == 0,
    decreases records.len(),
{
    if records.len() > 0 {
        lemma_no_bonus_below_threshold(records.drop_last(), w);
    }
}

/// What one stone adds along one line is within `0 ..= LINE_BOUND`, and
/// the records stay within bounds.
pub proof fn lemma_cal_score_bounds(
    mine: Set<(usize, usize)>,
    enemy: Set<(usize, usize)>,
    records: Seq<ScoredWindow>,
    x: int,
    y: int,
    dx: int,
    dy: int,
)
    requires
        records_wf(records),
        records.len() <= MAX_RECORDS,
        0 <= x < 15,
        0 <= y < 15,
        is_direction(dx, dy),
    ensures
        0 <= cal_score_spec(mine, enemy, records, x, y, dx, dy).0 <= LINE_BOUND,
        records_wf(cal_score_spec(mine, enemy, records, x, y, dx, dy).1),
        cal_score_spec(mine, enemy, records, x, y, dx, dy).1.len() <= records.len() + 1,
{
    let w = best_window(mine, enemy, x, y, dx, dy);
    lemma_best_window_wf(mine, enemy, x, y, dx, dy, 6);
    lemma_combo_bonus_bounds(records, w);
}

/// The total of the first `n` stones is within bounds, and so are the
/// records.
pub proof fn lemma_score_prefix_bounds(
    steps: Seq<(usize, usize)>,
    mine: Set<(usize, usize)>,
    enemy: Set<(usize, usize)>,
    n: int,
)
    requires
        0 <= n <= steps.len(),
        steps.len() <= CELL_COUNT,
        forall|i: int| 0 <= i < steps.len() ==> in_board(#[trigger] steps[i]),
    ensures
        0 <= score_prefix(steps, mine, enemy, n).0 <= 4 * n * LINE_BOUND,
        records_wf(score_prefix(steps, mine, enemy, n).1),
        score_prefix(steps, mine, enemy, n).1.len() <= 4 * n,
    decreases n,
{
    if n > 0 {
        lemma_score_prefix_bounds(steps, mine, enemy, n - 1);
        let before = score_prefix(steps, mine, enemy, n - 1);
        assert(in_board(steps[n - 1]));
        let x = steps[n - 1].0 as int;
        let y = steps[n - 1].1 as int;
        lemma_cal_score_bounds(mine, enemy, before.1, x, y, 0, 1);
        let right = cal_score_spec(mine, enemy, before.1, x, y, 0, 1);
        lemma_cal_score_bounds(mine, enemy, right.1, x, y, 1, 0);
        let down = cal_score_spec(mine, enemy, right.1, x, y, 1, 0);
        lemma_cal_score_bounds(mine, enemy, down.1, x, y, 1, 1);
        let diagonal = cal_score_spec(mine, enemy, down.1, x, y, 1, 1);
        lemma_cal_score_bounds(mine, enemy, diagonal.1, x, y, 1, -1);
    }
}

/// The value of a window of six classes.
pub fn window_value(c0: u8, c1: u8, c2: u8, c3: u8, c4: u8, c5: u8) -> (s: i64)
    ensures
        s == crate::shape::window_score(
            c0 as int,
            c1 as int,
            c2 as int,
            c3 as int,
            c4 as int,
            c5 as int,
        ),
{
    let five = five_shape(c0, c1, c2, c3, c4);
    let six = six_shape(c0, c1, c2, c3, c4, c5);
    if six > five {
        six
    } else {
        five
    }
}

/// The best window along `(dx, dy)` among the six around the stone
/// `(x, y)`.
pub fn find_best_window(
    x: usize,
    y: usize,
    dx: i32,
    dy: i32,
    my_steps_st: &CellSet,
    enemy_steps_st: &CellSet,
) -> (best: ScoredWindow)
    requires
        my_steps_st.wf(),
        enemy_steps_st.wf(),
        in_board((x, y)),
        is_direction(dx as int, dy as int),
    ensures
        best == best_window(my_steps_st@, enemy_steps_st@, x as int, y as int, dx as int, dy as int),
        best.wf(),
{
    let sx = x as i32;
    let sy = y as i32;
    let mut best = ScoredWindow { score: 0, x: 0, y: 0, dx: 0, dy: 0 };
    let mut offset: i32 = -5;
    while offset <= 0
        invariant
            -5 <= offset <= 1,
            sx == x,
            sy == y,
            in_board((x, y)),
            is_direction(dx as int, dy as int),
            my_steps_st.wf(),
            enemy_steps_st.wf(),
            best == best_window_upto(
                my_steps_st@,
                enemy_steps_st@,
                x as int,
                y as int,
                dx as int,
                dy as int,
                offset + 5,
            ),
        decreases 1 - offset,
    {
        let c0 = classify(my_steps_st, enemy_steps_st, along(sx, offset, dx), along(sy, offset, dy));
        let c1 = classify(
            my_steps_st,
            enemy_steps_st,
            along(sx, offset + 1, dx),
            along(sy, offset + 1, dy),
        );
        let c2 = classify(
            my_steps_st,
            enemy_steps_st,
            along(sx, offset + 2, dx),
            along(sy, offset + 2, dy),
        );
        let c3 = classify(
            my_steps_st,
            enemy_steps_st,
            along(sx, offset + 3, dx),
            along(sy, offset + 3, dy),
        );
        let c4 = classify(
            my_steps_st,
            enemy_steps_st,
            along(sx, offset + 4, dx),
            along(sy, offset + 4, dy),
        );
        let c5 = classify(
            my_steps_st,
            enemy_steps_st,
            along(sx, offset + 5, dx),
            along(sy, offset + 5, dy),
        );
        let s = window_value(c0, c1, c2, c3, c4, c5);
        assert(s == offset_score(
            my_steps_st@,
            enemy_steps_st@,
            x as int,
            y as int,
            dx as int,
            dy as int,
            offset as int,
        ));
        if s > best.score {
            best =
            ScoredWindow { score: s, x: along(sx, offset, dx), y: along(sy, offset, dy), dx, dy };
        }
        offset += 1;
    }
    proof {
        lemma_best_window_wf(
            my_steps_st@,
            enemy_steps_st@,
            x as int,
            y as int,
            dx as int,
            dy as int,
            6,
        );
    }
    best
}

/// The total of a side whose stones, in the order of play, are `steps`.
pub fn side_score(steps: &Vec<(usize, usize)>, my_steps_st: &CellSet, enemy_steps_st: &CellSet) -> (total:
    i64)
    requires
        my_steps_st.wf(),
        enemy_steps_st.wf(),
        steps@.len() <= CELL_COUNT,
        forall|i: int| 0 <= i < steps@.len() ==> in_board(#[trigger] steps@[i]),
    ensures
        total == side_total(steps@, my_steps_st@, enemy_steps_st@),
        0 <= total <= SIDE_BOUND,
{
    let mut score_all_arr: Vec<ScoredWindow> = Vec::new();
    let mut total: i64 = 0;
    let mut i: usize = 0;
    while i < steps.len()
        invariant
            i <= steps@.len(),
            steps@.len() <= CELL_COUNT,
            forall|j: int| 0 <= j < steps@.len() ==> in_board(#[trigger] steps@[j]),
            my_steps_st.wf(),
            enemy_steps_st.wf(),
            (total as int, score_all_arr@) == score_prefix(
                steps@,
                my_steps_st@,
                enemy_steps_st@,
                i as int,
            ),
        decreases steps@.len() - i,
    {
        proof {
            lemma_score_prefix_bounds(steps@, my_steps_st@, enemy_steps_st@, i as int);
            lemma_score_prefix_bounds(steps@, my_steps_st@, enemy_steps_st@, i + 1);
        }
        let x = steps[i].0;
        let y = steps[i].1;
        assert(in_board(steps@[i as int]));
        let right = AI::cal_score(x, y, 0, 1, my_steps_st, enemy_steps_st, &mut score_all_arr);
        let down = AI::cal_score(x, y, 1, 0, my_steps_st, enemy_steps_st, &mut score_all_arr);
        let diagonal = AI::cal_score(x, y, 1, 1, my_steps_st, enemy_steps_st, &mut score_all_arr);
        let anti = AI::cal_score(x, y, 1, -1, my_steps_st, enemy_steps_st, &mut score_all_arr);
        total = total + right + down + diagonal + anti;
        i += 1;
    }
    proof {
        lemma_score_prefix_bounds(steps@, my_steps_st@, enemy_steps_st@, steps@.len() as int);
    }
    total
}

/// The mover's total less a tenth of the other side's, rounded towards 0.
pub fn net_value(my_score: i64, enemy_score: i64) -> (ret: i64)
    requires
        0 <= my_score <= SIDE_BOUND,
        0 <= enemy_score <= SIDE_BOUND,
    ensures
        ret == net_score(my_score as int, enemy_score as int),
        -EVAL_BOUND <= ret <= EVAL_BOUND,
{
    let tenths: i64 = 10 * my_score - enemy_score;
    if tenths >= 0 {
        tenths / 10
    } else {
        -((-tenths) / 10)
    }
}

impl AI {
    /// What the stone `(x, y)` adds along `(dx, dy)`.
    ///
    /// A stone that a window on record for this direction covers adds
    /// nothing. Else the best window around the stone goes on record, and
    /// the stone adds its value and the bonus that it earns with the
    /// windows recorded before.
    pub fn cal_score(
        x: usize,
        y: usize,
        dx: i32,
        dy: i32,
        my_steps_st: &CellSet,
        enemy_steps_st: &CellSet,
        score_all_arr: &mut Vec<ScoredWindow>,
    ) -> (score: i64)
        requires
            my_steps_st.wf(),
            enemy_steps_st.wf(),
            in_board((x, y)),
            is_direction(dx as int, dy as int),
            records_wf(old(score_all_arr)@),
            old(score_all_arr)@.len() <= MAX_RECORDS,
        ensures
            (score as int, final(score_all_arr)@) == cal_score_spec(
                my_steps_st@,
                enemy_steps_st@,
                old(score_all_arr)@,
                x as int,
                y as int,
                dx as int,
                dy as int,
            ),
            0 <= score <= LINE_BOUND,
            records_wf(final(score_all_arr)@),
    {
        proof {
            lemma_cal_score_bounds(
                my_steps_st@,
                enemy_steps_st@,
                score_all_arr@,
                x as int,
                y as int,
                dx as int,
                dy as int,
            );
        }
        let mut i: usize = 0;
        while i < score_all_arr.len()
            invariant
                i <= score_all_arr@.len(),
                score_all_arr@ == old(score_all_arr)@,
                records_wf(score_all_arr@),
                in_board((x, y)),
                forall|j: int|
                    0 <= j < i ==> !(score_all_arr@[j].dx == dx && score_all_arr@[j].dy == dy
                        && #[trigger] score_all_arr@[j].covers(x as int, y as int)),
            decreases score_all_arr@.len() - i,
        {
            let r = score_all_arr[i];
            assert(r.wf());
            if r.dx == dx && r.dy == dy && r.covers_cell(x as i32, y as i32) {
                return 0;
            }
            i += 1;
        }
        let best = find_best_window(x, y, dx, dy, my_steps_st, enemy_steps_st);
        let mut add_score: i64 = 0;
        if best.score > COMBO_THRESHOLD {
            let mut k: usize = 0;
            while k < score_all_arr.len()
                invariant
                    k <= score_all_arr@.len(),
                    score_all_arr@ == old(score_all_arr)@,
                    score_all_arr@.len() <= MAX_RECORDS,
                    records_wf(score_all_arr@),
                    best.wf(),
                    best.score > COMBO_THRESHOLD,
                    add_score == combo_bonus(score_all_arr@.take(k as int), best),
                    0 <= add_score <= 199_999_998 * k,
                decreases score_all_arr@.len() - k,
            {
                let r = score_all_arr[k];
                assert(r.wf());
                proof {
                    let next = score_all_arr@.take(k + 1);
                    assert(next.drop_last() =~= score_all_arr@.take(k as int));
                    assert(next.last() == r);
                }
                if r.score > COMBO_THRESHOLD && !r.is_same_window(&best) && r.shares_cell(&best) {
                    add_score = add_score + (r.score + best.score);
                }
                k += 1;
            }
            assert(score_all_arr@.take(k as int) =~= score_all_arr@);
        } else {
            proof {
                lemma_no_bonus_below_threshold(score_all_arr@, best);
            }
        }
        score_all_arr.push(best);
        add_score + best.score
    }

    /// The heuristic value of the position for the side to move, from the
    /// cache where the fingerprint is on record there, else computed and
    /// put on record.
    pub fn evalution(&mut self, is_ai: bool) -> (ret: i64)
        requires
            old(self).wf(),
        ensures
            final(self).wf(),
            final(self).position() == old(self).position(),
            final(self).config() == old(self).config(),
            final(self).outcome() == old(self).outcome(),
            ret == old(self).config().eval_spec(old(self).position(), old(self).memo(), is_ai).value,
            final(self).memo() == old(self).config().eval_spec(
                old(self).position(),
                old(self).memo(),
                is_ai,
            ).memo,
            -EVAL_BOUND <= ret <= EVAL_BOUND,
    {
        proof {
            reveal(AI::wf);
            reveal(static_value);
        }
        let key = self.zobrist.get_hash();
        let black_to_move = is_ai == self.ai_black;
        if black_to_move {
            if let Some(val) = self.evaluation_cache_black.get(&key) {
                let ret = *val;
                assert(self.memo().cache_black.insert(key, ret) =~= self.memo().cache_black);
                return ret;
            }
        } else if let Some(val) = self.evaluation_cache_white.get(&key) {
            let ret = *val;
            assert(self.memo().cache_white.insert(key, ret) =~= self.memo().cache_white);
            return ret;
        }
        proof {
            self.position().lemma_stones_in_board();
            self.lemma_step_counts();
        }
        let my_score = if is_ai {
            side_score(&self.ai_steps, &self.ai_steps_st, &self.human_steps_st)
        } else {
            side_score(&self.human_steps, &self.human_steps_st, &self.ai_steps_st)
        };
        let enemy_score = if is_ai {
            side_score(&self.human_steps, &self.human_steps_st, &self.ai_steps_st)
        } else {
            side_score(&self.ai_steps, &self.ai_steps_st, &self.human_steps_st)
        };
        let ret = net_value(my_score, enemy_score);
        if black_to_move {
            self.evaluation_cache_black.insert(key, ret);
        } else {
            self.evaluation_cache_white.insert(key, ret);
        }
        ret
    }
}

} // verus!
