use gobang::ai::{GameState, AI};
use gobang::search::{SCORE_MAX, SCORE_MIN};
use gobang::zobrist::GobangZobrist;

fn keys(seed: u64) -> Vec<u64> {
    let mut out = Vec::new();
    let mut state = seed;
    for _ in 0..225 {
        state ^= state << 13;
        state ^= state >> 7;
        state ^= state << 17;
        out.push(state);
    }
    out
}

fn engine(depth: usize, ai_black: bool) -> AI {
    AI::with_config(GobangZobrist::from_keys(keys(11), keys(29)).unwrap(), depth, ai_black)
}

fn adjacent_to_a_stone(stones: &[(usize, usize)], c: (usize, usize)) -> bool {
    stones.iter().any(|&(x, y)| {
        let dx = if x > c.0 { x - c.0 } else { c.0 - x };
        let dy = if y > c.1 { y - c.1 } else { c.1 - y };
        dx <= 1 && dy <= 1 && (dx, dy) != (0, 0)
    })
}

#[test]
fn candidates_of_a_single_stone_are_its_eight_neighbours() {
    let mut ai = engine(2, false);
    ai.ai_step(7, 7);
    let cands = ai.candidates();
    assert_eq!(
        cands,
        vec![(8, 8), (8, 7), (8, 6), (7, 8), (7, 6), (6, 8), (6, 7), (6, 6)]
    );
    for x in 0..15 {
        for y in 0..15 {
            let near = x >= 6 && x <= 8 && y >= 6 && y <= 8 && (x, y) != (7, 7);
            assert_eq!(cands.contains(&(x, y)), near);
            assert_eq!(ai.has_neighbor(x, y), near);
        }
    }
}

#[test]
fn candidates_put_the_cells_around_the_last_move_first() {
    let mut ai = engine(2, false);
    ai.ai_step(7, 7);
    ai.human_step(7, 8);
    assert_eq!(
        ai.candidates(),
        vec![
            (8, 9),
            (8, 8),
            (8, 7),
            (7, 9),
            (6, 9),
            (6, 8),
            (6, 7),
            (6, 6),
            (7, 6),
            (8, 6)
        ]
    );
}

#[test]
fn candidates_of_a_corner_stone() {
    let mut ai = engine(2, false);
    ai.human_step(0, 0);
    assert_eq!(ai.candidates(), vec![(1, 1), (1, 0), (0, 1)]);
    let mut other = engine(2, false);
    other.human_step(14, 14);
    assert_eq!(other.candidates(), vec![(14, 13), (13, 14), (13, 13)]);
}

#[test]
fn empty_board_has_no_candidates() {
    let ai = engine(2, false);
    assert!(ai.candidates().is_empty());
    assert_eq!(ai.blank_steps().len(), 225);
    assert!(!ai.has_neighbor(7, 7));
}

#[test]
fn blank_steps_run_row_by_row() {
    let mut ai = engine(2, false);
    ai.ai_step(0, 1);
    ai.human_step(14, 14);
    let blanks = ai.blank_steps();
    assert_eq!(blanks.len(), 223);
    assert_eq!(blanks[0], (0, 0));
    assert_eq!(blanks[1], (0, 2));
    assert_eq!(blanks[14], (1, 0));
    assert_eq!(blanks[222], (14, 13));
}

#[test]
fn order_moves_the_neighbours_of_the_last_move_to_the_front() {
    let mut ai = engine(2, false);
    ai.ai_step(1, 1);
    let mut list = vec![(5, 5), (0, 0), (2, 2), (9, 9), (1, 2)];
    ai.order(&mut list);
    assert_eq!(list, vec![(2, 2), (1, 2), (0, 0), (5, 5), (9, 9)]);
    let empty = engine(2, false);
    let mut same = vec![(5, 5), (0, 0)];
    empty.order(&mut same);
    assert_eq!(same, vec![(5, 5), (0, 0)]);
}

#[test]
fn position_of_gives_the_first_index() {
    let list = vec![(1, 1), (2, 2), (1, 1), (3, 3)];
    assert_eq!(gobang::candidates::position_of(&list, (1, 1)), Some(0));
    assert_eq!(gobang::candidates::position_of(&list, (3, 3)), Some(3));
    assert_eq!(gobang::candidates::position_of(&list, (1, 2)), None);
    assert_eq!(gobang::candidates::position_of(&Vec::new(), (0, 0)), None);
}

#[test]
fn along_steps_from_a_base() {
    assert_eq!(gobang::shape::along(7, -5, 1), 2);
    assert_eq!(gobang::shape::along(7, 3, -1), 4);
    assert_eq!(gobang::shape::along(0, 5, 0), 0);
    assert_eq!(gobang::shape::along(0, -5, 1), -5);
}

#[test]
fn has_neighbor_off_the_grid() {
    let mut ai = engine(2, false);
    ai.ai_step(14, 14);
    assert!(ai.has_neighbor(13, 13));
    assert!(ai.has_neighbor(15, 15));
    assert!(ai.has_neighbor(15, 14));
    assert!(!ai.has_neighbor(16, 14));
    assert!(!ai.has_neighbor(14, 14));
    assert!(!ai.has_neighbor(usize::MAX, 0));
}

#[test]
fn end_to_end_reply_to_the_first_human_move() {
    let mut ai = AI::new();
    ai.depth = 2;
    ai.ai_step(7, 7);
    ai.human_step(7, 8);
    assert!(!ai.is_game_over());
    let step = ai.ai();
    assert_ne!(step, (7, 7));
    assert_ne!(step, (7, 8));
    assert!(step.0 < 15 && step.1 < 15);
    assert!(adjacent_to_a_stone(&[(7, 7), (7, 8)], step));
    assert_eq!(ai.all_steps(), &vec![(7, 7), (7, 8), step]);
    assert_eq!(ai.ai_steps(), &vec![(7, 7), step]);
    assert_eq!(ai.human_steps(), &vec![(7, 8)]);
    assert_eq!(ai.next_step(), Some(step));
}

#[test]
fn search_returns_an_empty_cell_next_to_a_stone_at_each_depth() {
    for depth in 1..4 {
        let mut ai = engine(depth, false);
        ai.ai_step(7, 7);
        ai.human_step(6, 6);
        ai.ai_step(8, 6);
        ai.human_step(6, 8);
        let before = ai.all_steps().clone();
        assert!(ai.is_empty_cell(5, 5));
        let step = ai.ai();
        assert!(!before.contains(&step));
        assert!(step.0 < 15 && step.1 < 15);
        assert!(adjacent_to_a_stone(&before, step));
        let mut after = before.clone();
        after.push(step);
        assert_eq!(ai.all_steps(), &after);
        assert!(!ai.is_empty_cell(step.0, step.1));
    }
}

#[test]
fn search_is_a_function_of_keys_and_position() {
    let mut one = engine(2, false);
    let mut other = engine(2, false);
    for ai in [&mut one, &mut other] {
        ai.ai_step(7, 7);
        ai.human_step(7, 8);
        ai.ai_step(8, 8);
        ai.human_step(6, 6);
    }
    let a = one.ai();
    let b = other.ai();
    assert_eq!(a, b);
    assert_eq!(one.get_hash(), other.get_hash());
}

#[test]
fn search_takes_the_winning_move() {
    let mut ai = engine(1, false);
    for y in 3..7 {
        ai.ai_step(7, y);
        ai.human_step(0, y);
    }
    ai.human_step(14, 14);
    let step = ai.ai();
    assert!(step == (7, 2) || step == (7, 7));
    assert!(ai.is_game_over());
    assert_eq!(ai.state, GameState::AI);
}

#[test]
fn search_blocks_an_open_four_at_depth_two() {
    let mut ai = engine(2, false);
    ai.ai_step(0, 0);
    ai.human_step(7, 4);
    ai.ai_step(0, 14);
    ai.human_step(7, 5);
    ai.ai_step(14, 0);
    ai.human_step(7, 6);
    ai.ai_step(7, 3);
    ai.human_step(7, 7);
    let step = ai.ai();
    assert_eq!(step, (7, 8));
}

#[test]
fn try_ai_finds_nothing_on_an_empty_board() {
    let mut ai = engine(2, false);
    assert_eq!(ai.try_ai(), None);
    assert!(ai.all_steps().is_empty());
    assert_eq!(ai.next_step(), None);
}

#[test]
fn try_ai_finds_nothing_once_the_game_is_won() {
    let mut ai = engine(2, false);
    for y in 0..5 {
        ai.human_step(7, y);
    }
    let before = ai.all_steps().clone();
    assert_eq!(ai.try_ai(), None);
    assert_eq!(ai.all_steps(), &before);
}

#[test]
fn try_ai_finds_nothing_at_depth_zero() {
    let mut ai = engine(0, false);
    ai.ai_step(7, 7);
    ai.human_step(7, 8);
    assert_eq!(ai.try_ai(), None);
    assert_eq!(ai.all_steps().len(), 2);
}

#[test]
fn try_ai_commits_what_it_finds() {
    let mut ai = engine(2, true);
    ai.human_step(3, 3);
    let found = ai.try_ai();
    assert!(found.is_some());
    let step = found.unwrap();
    assert!(adjacent_to_a_stone(&[(3, 3)], step));
    assert_eq!(ai.all_steps(), &vec![(3, 3), step]);
    assert_eq!(ai.ai_steps(), &vec![step]);
}

#[test]
fn negamax_at_depth_zero_is_the_evaluation() {
    let mut ai = engine(2, false);
    ai.ai_step(7, 12);
    ai.ai_step(7, 13);
    ai.ai_step(7, 14);
    ai.human_step(3, 3);
    ai.human_step(3, 4);
    assert_eq!(ai.negamax(true, 0, SCORE_MIN, SCORE_MAX), 495);
    assert_eq!(ai.negamax(false, 0, -7, 7), 0);
    assert_eq!(ai.all_steps().len(), 5);
}

#[test]
fn negamax_restores_the_board() {
    let mut ai = engine(3, false);
    ai.ai_step(7, 7);
    ai.human_step(7, 8);
    ai.ai_step(8, 8);
    let hash = ai.get_hash();
    let value = ai.negamax(false, 2, SCORE_MIN, SCORE_MAX);
    assert!(value > SCORE_MIN && value < SCORE_MAX);
    assert_eq!(ai.all_steps(), &vec![(7, 7), (7, 8), (8, 8)]);
    assert_eq!(ai.ai_steps(), &vec![(7, 7), (8, 8)]);
    assert_eq!(ai.human_steps(), &vec![(7, 8)]);
    assert_eq!(ai.get_hash(), hash);
    assert_eq!(ai.next_step(), None);
}

#[test]
fn negamax_stays_inside_a_narrow_window() {
    let mut ai = engine(2, false);
    ai.ai_step(7, 7);
    ai.human_step(7, 8);
    let value = ai.negamax(true, 1, -3, 3);
    assert!(value >= -3 && value <= 3);
}

#[test]
fn negamax_of_a_won_position_is_its_evaluation() {
    let mut ai = engine(2, false);
    for y in 0..5 {
        ai.ai_step(7, y);
    }
    assert_eq!(ai.negamax(true, 2, SCORE_MIN, SCORE_MAX), 99_999_999);
    assert_eq!(ai.negamax(false, 2, SCORE_MIN, SCORE_MAX), -9_999_999);
}

#[test]
fn try_step_is_the_negated_reply() {
    let mut ai = engine(2, false);
    ai.ai_step(7, 12);
    ai.ai_step(7, 13);
    let value = ai.try_step(true, 1, SCORE_MIN, SCORE_MAX, 7, 14);
    assert_eq!(value, 50);
    assert_eq!(ai.all_steps(), &vec![(7, 12), (7, 13)]);
}

/// 2 where the deeper side wins, 1 where nobody wins within `limit` plies,
/// 0 where the side that searches one level deep wins.
fn outcome_against_depth_one(depth: usize, opening: (usize, usize), limit: usize) -> u32 {
    let mut strong = engine(depth, false);
    let mut weak = engine(1, false);
    weak.ai_step(opening.0, opening.1);
    strong.human_step(opening.0, opening.1);
    let mut plies = 1;
    while plies < limit {
        let m = match strong.try_ai() {
            Some(m) => m,
            None => return 1,
        };
        weak.human_step(m.0, m.1);
        plies += 1;
        if strong.is_game_over() {
            return 2;
        }
        let n = match weak.try_ai() {
            Some(n) => n,
            None => return 1,
        };
        strong.human_step(n.0, n.1);
        plies += 1;
        if weak.is_game_over() {
            return 0;
        }
    }
    1
}

#[test]
fn deeper_search_does_not_play_worse_over_a_sample_of_games() {
    let openings = [(7, 7), (3, 3), (7, 10), (11, 4)];
    let mut totals = Vec::new();
    for depth in 1..4 {
        let mut total = 0;
        for &opening in openings.iter() {
            total += outcome_against_depth_one(depth, opening, 60);
        }
        totals.push(total);
    }
    assert!(totals[0] <= totals[1]);
    assert!(totals[1] <= totals[2]);
    assert_eq!(totals[2], 8);
}

/// The negamax value without pruning.
fn plain_negamax(ai: &mut AI, is_ai: bool, depth: usize) -> i64 {
    if ai.ai_has_five() || ai.human_has_five() || depth == 0 {
        return ai.evalution(is_ai);
    }
    let mut best = SCORE_MIN;
    for (x, y) in ai.candidates() {
        let value = reply_value(ai, is_ai, depth, (x, y));
        if value > best {
            best = value;
        }
    }
    best
}

fn reply_value(ai: &mut AI, is_ai: bool, depth: usize, c: (usize, usize)) -> i64 {
    if is_ai {
        ai.ai_step(c.0, c.1);
    } else {
        ai.human_step(c.0, c.1);
    }
    let value = -plain_negamax(ai, !is_ai, depth - 1);
    if is_ai {
        ai.undo_ai_step(c.0, c.1);
    } else {
        ai.undo_human_step(c.0, c.1);
    }
    value
}

fn first_best_reply(ai: &mut AI, depth: usize) -> ((usize, usize), i64) {
    let cands = ai.candidates();
    let mut best = (cands[0], SCORE_MIN);
    for c in cands {
        let value = reply_value(ai, true, depth, c);
        if value > best.1 {
            best = (c, value);
        }
    }
    best
}

fn middle_game(depth: usize) -> AI {
    let mut ai = engine(depth, false);
    ai.ai_step(7, 7);
    ai.human_step(7, 8);
    ai.ai_step(8, 8);
    ai.human_step(6, 6);
    ai.ai_step(9, 9);
    ai.human_step(10, 10);
    ai.ai_step(8, 6);
    ai.human_step(6, 8);
    ai
}

#[test]
fn pruned_search_chooses_what_plain_negamax_chooses() {
    for depth in 1..4 {
        let mut plain = middle_game(depth);
        let (best, value) = first_best_reply(&mut plain, depth);
        let mut pruned = middle_game(depth);
        assert_eq!(pruned.negamax(true, depth, SCORE_MIN, SCORE_MAX), value);
        assert_eq!(pruned.next_step(), Some(best));
        let mut played = middle_game(depth);
        assert_eq!(played.ai(), best);
    }
}

#[test]
fn pruned_search_cuts_the_value_to_the_window() {
    let mut plain = middle_game(2);
    let value = plain_negamax(&mut plain, false, 2);
    for (alpha, beta) in [(-10, 10), (value - 5, value + 5), (value, value + 1), (value + 1, value + 9)] {
        let mut pruned = middle_game(2);
        let cut = pruned.negamax(false, 2, alpha, beta);
        assert_eq!(cut, value.max(alpha).min(beta));
    }
}

#[test]
fn depth_one_search_picks_the_best_static_reply() {
    let mut ai = engine(1, false);
    ai.ai_step(7, 7);
    ai.ai_step(7, 8);
    ai.human_step(0, 0);
    let mut best = ((0, 0), SCORE_MIN);
    for c in ai.candidates() {
        ai.ai_step(c.0, c.1);
        let value = -ai.evalution(false);
        ai.undo_ai_step(c.0, c.1);
        if value > best.1 {
            best = (c, value);
        }
    }
    assert_eq!(best.1, 500);
    let mut twin = engine(1, false);
    twin.ai_step(7, 7);
    twin.ai_step(7, 8);
    twin.human_step(0, 0);
    assert_eq!(twin.ai(), best.0);
}

/// A board on which neither side has, or can get, five in a row, with the
/// two cells `(0, 0)` and `(14, 14)` left empty.
fn nearly_full_board(depth: usize) -> AI {
    let mut ai = engine(depth, false);
    for x in 0..15 {
        for y in 0..15 {
            if (x, y) == (0, 0) || (x, y) == (14, 14) {
                continue;
            }
            if (x + 2 * y) % 4 < 2 {
                ai.ai_step(x, y);
            } else {
                ai.human_step(x, y);
            }
        }
    }
    ai
}

#[test]
fn search_with_room_for_its_depth_finds_a_move_on_a_crowded_board() {
    for depth in 1..3 {
        let mut ai = nearly_full_board(depth);
        assert!(!ai.is_game_over());
        assert_eq!(ai.candidates(), vec![(14, 14), (0, 0)]);
        let found = ai.try_ai();
        assert!(found == Some((0, 0)) || found == Some((14, 14)));
        assert_eq!(ai.all_steps().len(), 224);
    }
}

#[test]
fn search_deeper_than_the_board_has_room_may_find_nothing() {
    let mut ai = nearly_full_board(3);
    assert!(!ai.is_game_over());
    assert_eq!(ai.try_ai(), None);
    assert_eq!(ai.all_steps().len(), 223);
    assert!(ai.is_empty_cell(0, 0));
    assert!(ai.is_empty_cell(14, 14));
}
