//! Laws of the board and of its fingerprint.

use vstd::prelude::*;
use crate::ai::Config;
use crate::position::Position;
use crate::zobrist::{lemma_xor_swap, lemma_xor_twice, GobangZobrist};

verus! {

/// A move: the side that makes it, `true` for the computer, and the cell.
pub type Move = (bool, (usize, usize));

/// The position after `moves` were made in turn.
pub open spec fn place_all(p: Position, moves: Seq<Move>) -> Position
    decreases moves.len(),
{
    if moves.len() == 0 {
        p
    } else {
        place_all(p, moves.drop_last()).place(moves.last().0, moves.last().1)
    }
}

/// The position after `moves` were taken back, the last one first.
pub open spec fn undo_all(p: Position, moves: Seq<Move>) -> Position
    decreases moves.len(),
{
    if moves.len() == 0 {
        p
    } else {
        undo_all(p.undo(moves.last().0), moves.drop_last())
    }
}

/// Whether each of `moves`, made in turn from `p`, goes to an empty cell.
pub open spec fn all_legal(p: Position, moves: Seq<Move>) -> bool
    decreases moves.len(),
{
    if moves.len() == 0 {
        true
    } else {
        all_legal(p, moves.drop_last()) && place_all(p, moves.drop_last()).is_empty_cell(
            moves.last().1,
        )
    }
}

/// Whether `moves` can be taken back from `p`, the last one first: each
/// time the last stone on the board is the one that the move placed.
pub open spec fn can_undo_all(p: Position, moves: Seq<Move>) -> bool
    decreases moves.len(),
{
    if moves.len() == 0 {
        true
    } else {
        p.can_undo(moves.last().0) && p.all.last() == moves.last().1 && can_undo_all(
            p.undo(moves.last().0),
            moves.drop_last(),
        )
    }
}

/// Placing and undoing mirror each other: after any legal moves, the same
/// moves can be taken back in reverse order, and then the sequences of both
/// sides, the combined sequence, the sets of stones and the fingerprint
/// are what they were before.
pub proof fn law_place_undo_symmetry(config: Config, p: Position, moves: Seq<Move>)
    requires
        p.wf(),
        all_legal(p, moves),
    ensures
        place_all(p, moves).wf(),
        can_undo_all(place_all(p, moves), moves),
        undo_all(place_all(p, moves), moves) == p,
        undo_all(place_all(p, moves), moves).stones() == p.stones(),
        undo_all(place_all(p, moves), moves).ai_stones() == p.ai_stones(),
        undo_all(place_all(p, moves), moves).human_stones() == p.human_stones(),
        config.hash_of(undo_all(place_all(p, moves), moves)) == config.hash_of(p),
    decreases moves.len(),
{
    if moves.len() > 0 {
        let before = place_all(p, moves.drop_last());
        law_place_undo_symmetry(config, p, moves.drop_last());
        before.lemma_place(moves.last().0, moves.last().1);
        before.lemma_place_undo(moves.last().0, moves.last().1);
    }
}

/// Putting a stone into the running fingerprint and taking it out again
/// leaves the fingerprint as it was.
pub proof fn law_update_twice(z: GobangZobrist, x: usize, y: usize, is_black: bool)
    ensures
        (z.hash() ^ z.key(x, y, is_black)) ^ z.key(x, y, is_black) == z.hash(),
{
    lemma_xor_twice(z.hash(), z.key(x, y, is_black));
}

/// Two updates of the running fingerprint give the same result in either
/// order.
pub proof fn law_update_order(
    z: GobangZobrist,
    first: (usize, usize),
    first_black: bool,
    second: (usize, usize),
    second_black: bool,
)
    ensures
        (z.hash() ^ z.key(first.0, first.1, first_black)) ^ z.key(second.0, second.1, second_black)
            == (z.hash() ^ z.key(second.0, second.1, second_black)) ^ z.key(
            first.0,
            first.1,
            first_black,
        ),
{
    lemma_xor_swap(
        z.hash(),
        z.key(first.0, first.1, first_black),
        z.key(second.0, second.1, second_black),
    );
}

/// One move and its undo leave the fingerprint as it was, and each of the
/// two changes it by the key of the stone.
pub proof fn law_fingerprint_place_undo(config: Config, p: Position, is_ai: bool, c: (usize, usize))
    requires
        p.wf(),
        p.is_empty_cell(c),
    ensures
        config.hash_of(p.place(is_ai, c)) == config.hash_of(p) ^ config.key_of(is_ai, c),
        config.hash_of(p.place(is_ai, c).undo(is_ai)) == config.hash_of(p.place(is_ai, c))
            ^ config.key_of(is_ai, c),
        config.hash_of(p.place(is_ai, c).undo(is_ai)) == config.hash_of(p),
{
    config.lemma_hash_place(p, is_ai, c);
    p.lemma_place(is_ai, c);
    config.lemma_hash_undo(p.place(is_ai, c), is_ai);
    p.lemma_place_undo(is_ai, c);
}

/// The fingerprint does not depend on the order of play: two stones on
/// different empty cells, placed in either order, give the same
/// fingerprint.
pub proof fn law_fingerprint_order(
    config: Config,
    p: Position,
    first: Move,
    second: Move,
)
    requires
        p.wf(),
        p.is_empty_cell(first.1),
        p.is_empty_cell(second.1),
        first.1 != second.1,
    ensures
        config.hash_of(p.place(first.0, first.1).place(second.0, second.1)) == config.hash_of(
            p.place(second.0, second.1).place(first.0, first.1),
        ),
{
    let one = p.place(first.0, first.1);
    let other = p.place(second.0, second.1);
    p.lemma_place(first.0, first.1);
    p.lemma_place(second.0, second.1);
    assert(one.is_empty_cell(second.1)) by {
        if one.all.contains(second.1) {
            let i = choose|i: int| 0 <= i < one.all.len() && one.all[i] == second.1;
            if i < p.all.len() {
                assert(p.all[i] == second.1);
            }
        }
    }
    assert(other.is_empty_cell(first.1)) by {
        if other.all.contains(first.1) {
            let i = choose|i: int| 0 <= i < other.all.len() && other.all[i] == first.1;
            if i < p.all.len() {
                assert(p.all[i] == first.1);
            }
        }
    }
    config.lemma_hash_place(p, first.0, first.1);
    config.lemma_hash_place(one, second.0, second.1);
    config.lemma_hash_place(p, second.0, second.1);
    config.lemma_hash_place(other, first.0, first.1);
    lemma_xor_swap(
        config.hash_of(p),
        config.key_of(first.0, first.1),
        config.key_of(second.0, second.1),
    );
}

/// The fingerprint is a function of the two sets of stones: positions with
/// the same stones of each side have the same fingerprint, however they
/// were reached.
pub proof fn law_fingerprint_of_layout(config: Config, p: Position, q: Position)
    requires
        p.ai_stones() == q.ai_stones(),
        p.human_stones() == q.human_stones(),
    ensures
        config.hash_of(p) == config.hash_of(q),
{
}

} // verus!
