//! The engine: the board it tracks and the moves it commits.

use std::collections::HashMap;
use vstd::prelude::*;
use crate::board::{cell_index, in_board, CellSet, BOARD_SIZE, CELL_COUNT};
use crate::eval::cache_bounded;
use crate::position::Position;
use crate::win::has_five;
use crate::zobrist::{
    cell_key, fingerprint, lemma_cell_index, lemma_fingerprint_toggle, GobangZobrist,
};

verus! {

/// The search depth of an engine made by `AI::new`.
pub const DEPTH: usize = 2;

/// Who has won, if anyone.
#[derive(Debug, Clone, Copy, PartialEq, Eq, Structural)]
pub enum GameState {
    Idle,
    Human,
    AI,
}

/// The computer player: the stones on the board, the fingerprint of the
/// layout, the cache of evaluations and the configured search depth.
#[derive(Debug)]
pub struct AI {
    pub(crate) ai_steps: Vec<(usize, usize)>,
    pub(crate) ai_steps_st: CellSet,
    pub(crate) human_steps: Vec<(usize, usize)>,
    pub(crate) human_steps_st: CellSet,
    pub(crate) all_steps: Vec<(usize, usize)>,
    pub(crate) all_steps_st: CellSet,
    pub(crate) next_step: Option<(usize, usize)>,
    pub state: GameState,
    pub depth: usize,
    pub(crate) ai_black: bool,
    pub(crate) zobrist: GobangZobrist,
    pub(crate) evaluation_cache_black: HashMap<u64, i64>,
    pub(crate) evaluation_cache_white: HashMap<u64, i64>,
}

/// What a game fixes before its first move: the keys of the fingerprint,
/// the colour of the computer and the search depth.
pub struct Config {
    pub black_keys: Seq<u64>,
    pub white_keys: Seq<u64>,
    pub ai_black: bool,
    pub depth: usize,
}

impl Config {
    /// The fingerprint of the layout of `p`.
    pub open spec fn hash_of(self, p: Position) -> u64 {
        if self.ai_black {
            fingerprint(self.black_keys, self.white_keys, p.ai_stones(), p.human_stones())
        } else {
            fingerprint(self.black_keys, self.white_keys, p.human_stones(), p.ai_stones())
        }
    }

    /// The key of a stone of the given side on `c`.
    pub open spec fn key_of(self, is_ai: bool, c: (usize, usize)) -> u64 {
        if is_ai == self.ai_black {
            self.black_keys[cell_index(c)]
        } else {
            self.white_keys[cell_index(c)]
        }
    }
}

/// What a search leaves behind: the evaluations on record for black to
/// move and for white to move, and the move it chose, if it chose one.
pub struct Memo {
    pub cache_black: Map<u64, i64>,
    pub cache_white: Map<u64, i64>,
    pub next_step: Option<(usize, usize)>,
}

impl Config {
    /// The fingerprint of the empty layout is 0.
    pub proof fn lemma_hash_empty(self)
        ensures
            self.hash_of(Position::empty()) == 0,
    {
        Position::lemma_empty_wf();
        let e = Set::<(usize, usize)>::empty();
        lemma_fingerprint_empty(self.black_keys, self.white_keys, CELL_COUNT as int);
        assert(Position::empty().ai_stones() == e);
        assert(Position::empty().human_stones() == e);
    }

    /// The fingerprint after a stone was put on an empty cell of `p`.
    pub proof fn lemma_hash_place(self, p: Position, is_ai: bool, c: (usize, usize))
        requires
            p.wf(),
            p.is_empty_cell(c),
        ensures
            self.hash_of(p.place(is_ai, c)) == self.hash_of(p) ^ self.key_of(is_ai, c),
    {
        let q = p.place(is_ai, c);
        p.lemma_place(is_ai, c);
        lemma_cell_index(c);
        let v = self.key_of(is_ai, c);
        assert(0u64 ^ v == v) by (bit_vector);
        if self.ai_black {
            lemma_fingerprint_toggle(
                self.black_keys,
                self.white_keys,
                p.ai_stones(),
                p.human_stones(),
                q.ai_stones(),
                q.human_stones(),
                cell_index(c),
                v,
                CELL_COUNT as int,
            );
        } else {
            lemma_fingerprint_toggle(
                self.black_keys,
                self.white_keys,
                p.human_stones(),
                p.ai_stones(),
                q.human_stones(),
                q.ai_stones(),
                cell_index(c),
                v,
                CELL_COUNT as int,
            );
        }
    }

    /// The fingerprint after the last move of `p` was taken back.
    pub proof fn lemma_hash_undo(self, p: Position, is_ai: bool)
        requires
            p.wf(),
            p.can_undo(is_ai),
        ensures
            self.hash_of(p.undo(is_ai)) == self.hash_of(p) ^ self.key_of(is_ai, p.all.last()),
    {
        let q = p.undo(is_ai);
        let c = p.all.last();
        p.lemma_undo(is_ai);
        lemma_cell_index(c);
        let v = self.key_of(is_ai, c);
        assert(v ^ v == 0u64) by (bit_vector);
        if self.ai_black {
            lemma_fingerprint_toggle(
                self.black_keys,
                self.white_keys,
                p.ai_stones(),
                p.human_stones(),
                q.ai_stones(),
                q.human_stones(),
                cell_index(c),
                v,
                CELL_COUNT as int,
            );
        } else {
            lemma_fingerprint_toggle(
                self.black_keys,
                self.white_keys,
                p.human_stones(),
                p.ai_stones(),
                q.human_stones(),
                q.ai_stones(),
                cell_index(c),
                v,
                CELL_COUNT as int,
            );
        }
    }
}

impl Memo {
    /// Whether both caches hold possible evaluations only.
    pub open spec fn wf(self) -> bool {
        cache_bounded(self.cache_black) && cache_bounded(self.cache_white)
    }
}

impl AI {
    /// The moves played so far.
    pub open(crate) spec fn position(&self) -> Position {
        Position { ai: self.ai_steps@, human: self.human_steps@, all: self.all_steps@ }
    }

    /// The keys, the colour of the computer and the search depth.
    pub open(crate) spec fn config(&self) -> Config {
        Config {
            black_keys: self.zobrist.black_keys(),
            white_keys: self.zobrist.white_keys(),
            ai_black: self.ai_black,
            depth: self.depth,
        }
    }

    /// The caches and the move that the last search chose.
    pub open(crate) spec fn memo(&self) -> Memo {
        Memo {
            cache_black: self.evaluation_cache_black@,
            cache_white: self.evaluation_cache_white@,
            next_step: self.next_step,
        }
    }

    /// The running fingerprint.
    pub open(crate) spec fn hash(&self) -> u64 {
        self.zobrist.hash()
    }

    /// The winner on record.
    pub open(crate) spec fn outcome(&self) -> GameState {
        self.state
    }

    /// The representation invariant: the position is well formed, each
    /// membership set holds what its sequence holds, the fingerprint is
    /// that of the layout, and the caches hold possible evaluations.
    #[verifier::opaque]
    pub open(crate) spec fn wf(&self) -> bool {
        &&& self.ai_steps_st.wf()
        &&& self.human_steps_st.wf()
        &&& self.all_steps_st.wf()
        &&& self.zobrist.wf()
        &&& self.position().wf()
        &&& self.ai_steps_st@ == self.position().ai_stones()
        &&& self.human_steps_st@ == self.position().human_stones()
        &&& self.all_steps_st@ == self.position().stones()
        &&& self.hash() == self.config().hash_of(self.position())
        &&& self.memo().wf()
    }

    /// Whether `other` differs from this engine in nothing but the stones
    /// on the board and the fingerprint that follows them.
    pub open spec fn same_game(&self, other: &AI) -> bool {
        &&& other.config() == self.config()
        &&& other.memo() == self.memo()
        &&& other.outcome() == self.outcome()
    }

    /// An engine for a new game with the given keys, search depth and
    /// colour of the computer. The running fingerprint of `zobrist` is
    /// set back to that of the empty grid.
    pub fn with_config(zobrist: GobangZobrist, depth: usize, ai_black: bool) -> (ai: AI)
        requires
            zobrist.wf(),
        ensures
            ai.wf(),
            ai.position() == Position::empty(),
            ai.config() == (Config {
                black_keys: zobrist.black_keys(),
                white_keys: zobrist.white_keys(),
                ai_black,
                depth,
            }),
            ai.memo() == (Memo {
                cache_black: Map::empty(),
                cache_white: Map::empty(),
                next_step: None,
            }),
            ai.outcome() == GameState::Idle,
    {
        let mut zobrist = zobrist;
        zobrist.reset();
        let ai = AI {
            ai_steps: Vec::new(),
            ai_steps_st: CellSet::new(),
            human_steps: Vec::new(),
            human_steps_st: CellSet::new(),
            all_steps: Vec::new(),
            all_steps_st: CellSet::new(),
            next_step: None,
            state: GameState::Idle,
            depth,
            ai_black,
            zobrist,
            evaluation_cache_black: HashMap::new(),
            evaluation_cache_white: HashMap::new(),
        };
        proof {
            reveal(AI::wf);
            Position::lemma_empty_wf();
            assert(ai.position() == Position::empty());
            ai.lemma_empty_hash();
        }
        ai
    }

    /// An engine for a new game: fresh random keys, depth 2, the computer
    /// plays white.
    pub fn new() -> (ai: AI)
        ensures
            ai.wf(),
            ai.position() == Position::empty(),
            ai.config().depth == DEPTH,
            !ai.config().ai_black,
            ai.memo() == (Memo {
                cache_black: Map::empty(),
                cache_white: Map::empty(),
                next_step: None,
            }),
            ai.outcome() == GameState::Idle,
    {
        AI::with_config(GobangZobrist::new(), DEPTH, false)
    }

    /// The fingerprint of the empty layout is 0.
    proof fn lemma_empty_hash(&self)
        ensures
            self.config().hash_of(Position::empty()) == 0,
    {
        self.config().lemma_hash_empty();
    }

    /// Well-formedness of the engine implies that of its parts.
    pub proof fn lemma_wf_parts(&self)
        requires
            self.wf(),
        ensures
            self.position().wf(),
            self.memo().wf(),
            self.hash() == self.config().hash_of(self.position()),
    {
        reveal(AI::wf);
    }

    /// Whether the computer has five in a row.
    pub fn ai_has_five(&self) -> (won: bool)
        requires
            self.wf(),
        ensures
            won == has_five(self.position().ai_stones()),
    {
        proof {
            reveal(AI::wf);
        }
        AI::game_win(&self.ai_steps_st)
    }

    /// Whether the human has five in a row.
    pub fn human_has_five(&self) -> (won: bool)
        requires
            self.wf(),
        ensures
            won == has_five(self.position().human_stones()),
    {
        proof {
            reveal(AI::wf);
        }
        AI::game_win(&self.human_steps_st)
    }

    /// Puts `step` on record as the move that the search chose, or takes
    /// the record away.
    pub(crate) fn set_next_step(&mut self, step: Option<(usize, usize)>)
        requires
            old(self).wf(),
        ensures
            final(self).wf(),
            final(self).position() == old(self).position(),
            final(self).config() == old(self).config(),
            final(self).outcome() == old(self).outcome(),
            final(self).memo() == (Memo {
                cache_black: old(self).memo().cache_black,
                cache_white: old(self).memo().cache_white,
                next_step: step,
            }),
    {
        proof {
            reveal(AI::wf);
        }
        self.next_step = step;
    }

    /// Puts `state` on record as the winner.
    pub(crate) fn set_state(&mut self, state: GameState)
        requires
            old(self).wf(),
        ensures
            final(self).wf(),
            final(self).position() == old(self).position(),
            final(self).config() == old(self).config(),
            final(self).memo() == old(self).memo(),
            final(self).outcome() == state,
    {
        proof {
            reveal(AI::wf);
        }
        self.state = state;
    }

    /// The configured search depth.
    pub fn depth(&self) -> (depth: usize)
        ensures
            depth == self.config().depth,
    {
        self.depth
    }

    /// Configures the search depth.
    pub fn set_depth(&mut self, depth: usize)
        requires
            old(self).wf(),
        ensures
            final(self).wf(),
            final(self).position() == old(self).position(),
            final(self).memo() == old(self).memo(),
            final(self).outcome() == old(self).outcome(),
            final(self).config() == (Config {
                black_keys: old(self).config().black_keys,
                white_keys: old(self).config().white_keys,
                ai_black: old(self).config().ai_black,
                depth,
            }),
    {
        proof {
            reveal(AI::wf);
        }
        self.depth = depth;
    }

    /// Whether the computer plays black.
    pub fn ai_black(&self) -> (ai_black: bool)
        ensures
            ai_black == self.config().ai_black,
    {
        self.ai_black
    }

    /// The fingerprint of the layout.
    pub fn get_hash(&self) -> (h: u64)
        requires
            self.wf(),
        ensures
            h == self.config().hash_of(self.position()),
    {
        proof {
            reveal(AI::wf);
        }
        self.zobrist.get_hash()
    }

    /// The moves of both sides in the order of play.
    pub fn all_steps(&self) -> (steps: &Vec<(usize, usize)>)
        ensures
            steps@ == self.position().all,
    {
        &self.all_steps
    }

    /// The moves of the computer in the order of play.
    pub fn ai_steps(&self) -> (steps: &Vec<(usize, usize)>)
        ensures
            steps@ == self.position().ai,
    {
        &self.ai_steps
    }

    /// The moves of the human in the order of play.
    pub fn human_steps(&self) -> (steps: &Vec<(usize, usize)>)
        ensures
            steps@ == self.position().human,
    {
        &self.human_steps
    }

    /// Whether `(x, y)` is a cell of the grid that holds no stone.
    pub fn is_empty_cell(&self, x: usize, y: usize) -> (empty: bool)
        requires
            self.wf(),
        ensures
            empty == self.position().is_empty_cell((x, y)),
    {
        proof {
            reveal(AI::wf);
            self.position().lemma_stones_in_board();
        }
        x < BOARD_SIZE && y < BOARD_SIZE && !self.all_steps_st.contains(x, y)
    }

    /// The move that the last search chose, if it chose one.
    pub fn next_step(&self) -> (step: Option<(usize, usize)>)
        ensures
            step == self.memo().next_step,
    {
        self.next_step
    }

    /// No side has more stones than the grid has cells.
    pub proof fn lemma_step_counts(&self)
        requires
            self.wf(),
        ensures
            self.position().all.len() <= CELL_COUNT,
            self.position().ai.len() <= CELL_COUNT,
            self.position().human.len() <= CELL_COUNT,
            forall|i: int|
                0 <= i < self.position().ai.len() ==> in_board(#[trigger] self.position().ai[i]),
            forall|i: int|
                0 <= i < self.position().human.len() ==> in_board(
                    #[trigger] self.position().human[i],
                ),
    {
        reveal(AI::wf);
        let p = self.position();
        p.lemma_stones_in_board();
        lemma_len_on_board(p.all);
        assert forall|i: int| 0 <= i < p.ai.len() implies in_board(#[trigger] p.ai[i]) by {
            assert(p.ai.contains(p.ai[i]));
            assert(p.ai_stones().contains(p.ai[i]));
        }
        assert forall|i: int| 0 <= i < p.human.len() implies in_board(#[trigger] p.human[i]) by {
            assert(p.human.contains(p.human[i]));
            assert(p.human_stones().contains(p.human[i]));
        }
        lemma_len_on_board(p.ai);
        lemma_len_on_board(p.human);
    }

    /// Commits a stone of the human to the empty cell `(x, y)`.
    pub fn human_step(&mut self, x: usize, y: usize)
        requires
            old(self).wf(),
            old(self).position().is_empty_cell((x, y)),
        ensures
            final(self).wf(),
            final(self).position() == old(self).position().place(false, (x, y)),
            old(self).same_game(final(self)),
    {
        proof {
            reveal(AI::wf);
            self.position().lemma_place(false, (x, y));
            self.config().lemma_hash_place(self.position(), false, (x, y));
        }
        self.human_steps.push((x, y));
        self.human_steps_st.insert(x, y);
        self.all_steps.push((x, y));
        self.all_steps_st.insert(x, y);
        self.zobrist.update(x, y, !self.ai_black);
    }

    /// Commits a stone of the computer to the empty cell `(x, y)`.
    pub fn ai_step(&mut self, x: usize, y: usize)
        requires
            old(self).wf(),
            old(self).position().is_empty_cell((x, y)),
        ensures
            final(self).wf(),
            final(self).position() == old(self).position().place(true, (x, y)),
            old(self).same_game(final(self)),
    {
        proof {
            reveal(AI::wf);
            self.position().lemma_place(true, (x, y));
            self.config().lemma_hash_place(self.position(), true, (x, y));
        }
        self.ai_steps.push((x, y));
        self.ai_steps_st.insert(x, y);
        self.all_steps.push((x, y));
        self.all_steps_st.insert(x, y);
        self.zobrist.update(x, y, self.ai_black);
    }

    /// Takes back the last move, which the human made on `(x, y)`.
    pub fn undo_human_step(&mut self, x: usize, y: usize)
        requires
            old(self).wf(),
            old(self).position().can_undo(false),
            old(self).position().all.last() == (x, y),
        ensures
            final(self).wf(),
            final(self).position() == old(self).position().undo(false),
            old(self).same_game(final(self)),
    {
        proof {
            reveal(AI::wf);
            self.position().lemma_undo(false);
            self.config().lemma_hash_undo(self.position(), false);
        }
        self.human_steps.pop();
        self.human_steps_st.remove(x, y);
        self.zobrist.update(x, y, !self.ai_black);
        self.all_steps.pop();
        self.all_steps_st.remove(x, y);
    }

    /// Takes back the last move, which the computer made on `(x, y)`.
    pub fn undo_ai_step(&mut self, x: usize, y: usize)
        requires
            old(self).wf(),
            old(self).position().can_undo(true),
            old(self).position().all.last() == (x, y),
        ensures
            final(self).wf(),
            final(self).position() == old(self).position().undo(true),
            old(self).same_game(final(self)),
    {
        proof {
            reveal(AI::wf);
            self.position().lemma_undo(true);
            self.config().lemma_hash_undo(self.position(), true);
        }
        self.ai_steps.pop();
        self.ai_steps_st.remove(x, y);
        self.zobrist.update(x, y, self.ai_black);
        self.all_steps.pop();
        self.all_steps_st.remove(x, y);
    }
}

/// A sequence of cells of the grid without repetition is no longer than
/// the grid has cells.
pub proof fn lemma_len_on_board(s: Seq<(usize, usize)>)
    requires
        s.no_duplicates(),
        forall|i: int| 0 <= i < s.len() ==> in_board(#[trigger] s[i]),
    ensures
        s.len() <= CELL_COUNT,
{
    let idx = s.map_values(|c: (usize, usize)| cell_index(c));
    assert(idx.no_duplicates()) by {
        assert forall|i: int, j: int| 0 <= i < idx.len() && 0 <= j < idx.len() && i != j implies idx[i]
            != idx[j] by {
            assert(in_board(s[i]) && in_board(s[j]));
            assert(s[i] != s[j]);
        }
    }
    idx.unique_seq_to_set();
    let range = vstd::set_lib::set_int_range(0, CELL_COUNT as int);
    vstd::set_lib::lemma_int_range(0, CELL_COUNT as int);
    assert(idx.to_set().subset_of(range)) by {
        assert forall|k: int| idx.to_set().contains(k) implies range.contains(k) by {
            let i = choose|i: int| 0 <= i < idx.len() && idx[i] == k;
            assert(in_board(s[i]));
        }
    }
    vstd::set_lib::lemma_len_subset(idx.to_set(), range);
}

/// The fingerprint of the layout without stones is 0.
pub proof fn lemma_fingerprint_empty(black_keys: Seq<u64>, white_keys: Seq<u64>, n: int)
    ensures
        crate::zobrist::fingerprint_upto(
            black_keys,
            white_keys,
            Set::<(usize, usize)>::empty(),
            Set::<(usize, usize)>::empty(),
            n,
        ) == 0,
    decreases n,
{
    if n > 0 {
        lemma_fingerprint_empty(black_keys, white_keys, n - 1);
        let e = Set::<(usize, usize)>::empty();
        assert(cell_key(black_keys, white_keys, e, e, n - 1) == 0);
        assert(0u64 ^ 0u64 == 0u64) by (bit_vector);
    }
}

} // verus!
