//! The mathematical model of a game in progress: who played where, in order.

use vstd::prelude::*;
use crate::board::in_board;

verus! {

/// Whether `all` is `a` and `b` shuffled together, each kept in its order.
pub open spec fn is_interleaving(
    all: Seq<(usize, usize)>,
    a: Seq<(usize, usize)>,
    b: Seq<(usize, usize)>,
) -> bool
    decreases all.len(),
{
    if all.len() == 0 {
        a.len() == 0 && b.len() == 0
    } else {
        ||| a.len() > 0 && a.last() == all.last() && is_interleaving(
            all.drop_last(),
            a.drop_last(),
            b,
        )
        ||| b.len() > 0 && b.last() == all.last() && is_interleaving(
            all.drop_last(),
            a,
            b.drop_last(),
        )
    }
}

/// The moves of a game: those of the computer, those of the human, and
/// those of both, each in the order of play.
pub struct Position {
    pub ai: Seq<(usize, usize)>,
    pub human: Seq<(usize, usize)>,
    pub all: Seq<(usize, usize)>,
}

impl Position {
    /// The position before the first move.
    pub open spec fn empty() -> Position {
        Position { ai: Seq::empty(), human: Seq::empty(), all: Seq::empty() }
    }

    /// The cells that hold a stone of the computer.
    pub open spec fn ai_stones(self) -> Set<(usize, usize)> {
        self.ai.to_set()
    }

    /// The cells that hold a stone of the human.
    pub open spec fn human_stones(self) -> Set<(usize, usize)> {
        self.human.to_set()
    }

    /// The cells that hold a stone.
    pub open spec fn stones(self) -> Set<(usize, usize)> {
        self.all.to_set()
    }

    /// The moves of one side.
    pub open spec fn steps_of(self, is_ai: bool) -> Seq<(usize, usize)> {
        if is_ai {
            self.ai
        } else {
            self.human
        }
    }

    /// The cells that hold a stone of one side.
    pub open spec fn stones_of(self, is_ai: bool) -> Set<(usize, usize)> {
        self.steps_of(is_ai).to_set()
    }

    /// Whether `c` holds a stone.
    pub open spec fn occupied(self, c: (usize, usize)) -> bool {
        self.all.contains(c)
    }

    /// Whether `c` is a cell of the grid that holds no stone.
    pub open spec fn is_empty_cell(self, c: (usize, usize)) -> bool {
        in_board(c) && !self.occupied(c)
    }

    /// Every stone lies on the grid, no cell holds two stones, and the
    /// combined sequence is the two sides' sequences shuffled together.
    pub open spec fn wf(self) -> bool {
        &&& forall|i: int| 0 <= i < self.all.len() ==> in_board(#[trigger] self.all[i])
        &&& self.all.no_duplicates()
        &&& self.ai.no_duplicates()
        &&& self.human.no_duplicates()
        &&& self.ai_stones().disjoint(self.human_stones())
        &&& self.stones() == self.ai_stones().union(self.human_stones())
        &&& is_interleaving(self.all, self.ai, self.human)
    }

    /// The position after one side has placed a stone on `c`.
    pub open spec fn place(self, is_ai: bool, c: (usize, usize)) -> Position {
        if is_ai {
            Position { ai: self.ai.push(c), human: self.human, all: self.all.push(c) }
        } else {
            Position { ai: self.ai, human: self.human.push(c), all: self.all.push(c) }
        }
    }

    /// Whether the last move was made by the given side.
    pub open spec fn can_undo(self, is_ai: bool) -> bool {
        &&& self.all.len() > 0
        &&& self.steps_of(is_ai).len() > 0
        &&& self.steps_of(is_ai).last() == self.all.last()
    }

    /// The position with the last move, made by the given side, taken back.
    pub open spec fn undo(self, is_ai: bool) -> Position {
        if is_ai {
            Position { ai: self.ai.drop_last(), human: self.human, all: self.all.drop_last() }
        } else {
            Position { ai: self.ai, human: self.human.drop_last(), all: self.all.drop_last() }
        }
    }

    /// The empty position is well formed.
    pub proof fn lemma_empty_wf()
        ensures
            Position::empty().wf(),
            Position::empty().stones() == Set::<(usize, usize)>::empty(),
            Position::empty().ai_stones() == Set::<(usize, usize)>::empty(),
            Position::empty().human_stones() == Set::<(usize, usize)>::empty(),
    {
        let p = Position::empty();
        assert(p.stones() =~= Set::<(usize, usize)>::empty());
        assert(p.ai_stones() =~= Set::<(usize, usize)>::empty());
        assert(p.human_stones() =~= Set::<(usize, usize)>::empty());
        assert(p.stones() =~= p.ai_stones().union(p.human_stones()));
    }

    /// A stone on a cell of a side is a stone on the grid.
    pub proof fn lemma_stones_in_board(self)
        requires
            self.wf(),
        ensures
            forall|c: (usize, usize)| self.stones().contains(c) ==> in_board(c),
            forall|c: (usize, usize)| self.ai_stones().contains(c) ==> self.stones().contains(c),
            forall|c: (usize, usize)| self.human_stones().contains(c) ==> self.stones().contains(c),
            forall|c: (usize, usize)| self.occupied(c) <==> self.stones().contains(c),
    {
        assert forall|c: (usize, usize)| self.stones().contains(c) implies in_board(c) by {
            let i = choose|i: int| 0 <= i < self.all.len() && self.all[i] == c;
            assert(in_board(self.all[i]));
        }
    }

    /// Placing a stone on an empty cell keeps the position well formed and
    /// adds the cell to the stones of that side and to those of both.
    pub proof fn lemma_place(self, is_ai: bool, c: (usize, usize))
        requires
            self.wf(),
            self.is_empty_cell(c),
        ensures
            self.place(is_ai, c).wf(),
            self.place(is_ai, c).stones() == self.stones().insert(c),
            self.place(is_ai, c).stones_of(is_ai) == self.stones_of(is_ai).insert(c),
            self.place(is_ai, c).stones_of(!is_ai) == self.stones_of(!is_ai),
            self.place(is_ai, c).can_undo(is_ai),
            !self.ai_stones().contains(c),
            !self.human_stones().contains(c),
    {
        let q = self.place(is_ai, c);
        self.lemma_stones_in_board();
        self.all.lemma_push_to_set_commute(c);
        self.steps_of(is_ai).lemma_push_to_set_commute(c);
        assert(q.stones() =~= self.stones().insert(c));
        assert(q.stones_of(is_ai) =~= self.stones_of(is_ai).insert(c));
        assert(!self.stones().contains(c));
        assert(q.all.drop_last() =~= self.all);
        assert(q.steps_of(is_ai).drop_last() =~= self.steps_of(is_ai));
        assert(q.stones() =~= q.ai_stones().union(q.human_stones()));
        assert(q.ai_stones().disjoint(q.human_stones()));
        assert(q.all.no_duplicates()) by {
            assert forall|i: int, j: int|
                0 <= i < q.all.len() && 0 <= j < q.all.len() && i != j implies q.all[i]
                != q.all[j] by {
                if i < self.all.len() {
                    assert(self.all.contains(self.all[i]));
                }
                if j < self.all.len() {
                    assert(self.all.contains(self.all[j]));
                }
            }
        }
        let s = self.steps_of(is_ai);
        let t = q.steps_of(is_ai);
        assert(t.no_duplicates()) by {
            assert forall|i: int, j: int|
                0 <= i < t.len() && 0 <= j < t.len() && i != j implies t[i] != t[j] by {
                if i < s.len() {
                    assert(s.contains(s[i]));
                    assert(s.to_set().contains(s[i]));
                }
                if j < s.len() {
                    assert(s.contains(s[j]));
                    assert(s.to_set().contains(s[j]));
                }
            }
        }
    }

    /// Taking back the last move keeps the position well formed and takes
    /// the cell out of the stones of that side and of those of both.
    pub proof fn lemma_undo(self, is_ai: bool)
        requires
            self.wf(),
            self.can_undo(is_ai),
        ensures
            self.undo(is_ai).wf(),
            in_board(self.all.last()),
            self.undo(is_ai).stones() == self.stones().remove(self.all.last()),
            self.undo(is_ai).stones_of(is_ai) == self.stones_of(is_ai).remove(self.all.last()),
            self.undo(is_ai).stones_of(!is_ai) == self.stones_of(!is_ai),
            self.undo(is_ai).is_empty_cell(self.all.last()),
            self.stones_of(is_ai).contains(self.all.last()),
            !self.stones_of(!is_ai).contains(self.all.last()),
    {
        let q = self.undo(is_ai);
        let c = self.all.last();
        let s = self.steps_of(is_ai);
        let o = self.steps_of(!is_ai);
        self.lemma_stones_in_board();
        assert(self.all.contains(c));
        assert(s.contains(c));
        assert(s.to_set().contains(c));
        assert(!o.to_set().contains(c));
        lemma_drop_last_to_set(self.all);
        lemma_drop_last_to_set(s);
        assert(q.stones() =~= q.ai_stones().union(q.human_stones()));
        assert(q.ai_stones().disjoint(q.human_stones()));
        assert(is_interleaving(q.all, q.ai, q.human)) by {
            if o.len() > 0 && o.last() == c {
                assert(o.contains(c));
                assert(o.to_set().contains(c));
            }
        }
        assert(!q.all.contains(c)) by {
            if q.all.contains(c) {
                let i = choose|i: int| 0 <= i < q.all.len() && q.all[i] == c;
                assert(self.all[i] == self.all[self.all.len() - 1]);
            }
        }
    }

    /// Placing a stone and taking it back gives the position before.
    pub proof fn lemma_place_undo(self, is_ai: bool, c: (usize, usize))
        ensures
            self.place(is_ai, c).undo(is_ai) == self,
    {
        assert(self.all.push(c).drop_last() =~= self.all);
        assert(self.ai.push(c).drop_last() =~= self.ai);
        assert(self.human.push(c).drop_last() =~= self.human);
    }
}

/// The cells of a sequence without repetition, less its last element.
pub proof fn lemma_drop_last_to_set(s: Seq<(usize, usize)>)
    requires
        s.len() > 0,
        s.no_duplicates(),
    ensures
        s.drop_last().no_duplicates(),
        s.drop_last().to_set() == s.to_set().remove(s.last()),
{
    let d = s.drop_last();
    assert forall|c: (usize, usize)| d.to_set().contains(c) == s.to_set().remove(s.last()).contains(
        c,
    ) by {
        if d.contains(c) {
            let i = choose|i: int| 0 <= i < d.len() && d[i] == c;
            assert(s[i] == c);
            assert(s.contains(c));
        }
        if s.contains(c) && c != s.last() {
            let i = choose|i: int| 0 <= i < s.len() && s[i] == c;
            assert(d[i] == c);
            assert(d.contains(c));
        }
    }
    assert(d.to_set() =~= s.to_set().remove(s.last()));
}

} // verus!
