use gobang::ai::{GameState, AI};
use gobang::board::CellSet;
use gobang::zobrist::GobangZobrist;

fn fixed_keys(seed: u64) -> Vec<u64> {
    let mut keys = Vec::new();
    let mut state = seed;
    for _ in 0..225 {
        state = state
            .wrapping_mul(6364136223846793005)
            .wrapping_add(1442695040888963407);
        keys.push(state ^ (state >> 29));
    }
    keys
}

fn fixed_engine(depth: usize, ai_black: bool) -> AI {
    let zobrist = GobangZobrist::from_keys(fixed_keys(1), fixed_keys(2)).unwrap();
    AI::with_config(zobrist, depth, ai_black)
}

fn set_of(cells: &[(usize, usize)]) -> CellSet {
    let mut set = CellSet::new();
    for &(x, y) in cells {
        set.insert(x, y);
    }
    set
}

#[test]
fn cell_set_insert_contains_remove() {
    let mut set = CellSet::new();
    assert!(!set.contains(3, 4));
    set.insert(3, 4);
    set.insert(14, 14);
    assert!(set.contains(3, 4));
    assert!(set.contains(14, 14));
    assert!(!set.contains(4, 3));
    set.remove(3, 4);
    assert!(!set.contains(3, 4));
    assert!(set.contains(14, 14));
}

#[test]
fn cell_set_holds_nothing_off_the_grid() {
    let mut set = CellSet::new();
    set.insert(0, 14);
    assert!(!set.contains(15, 0));
    assert!(!set.contains(0, 15));
    assert!(!set.contains(1, 0));
    assert!(!set.contains(usize::MAX, usize::MAX));
}

#[test]
fn new_engine_is_empty() {
    let ai = AI::new();
    assert!(ai.all_steps().is_empty());
    assert!(ai.ai_steps().is_empty());
    assert!(ai.human_steps().is_empty());
    assert_eq!(ai.get_hash(), 0);
    assert_eq!(ai.depth, 2);
    assert_eq!(ai.depth(), 2);
    assert!(!ai.ai_black());
    assert_eq!(ai.state, GameState::Idle);
    assert_eq!(ai.next_step(), None);
    assert!(ai.is_empty_cell(0, 0));
    assert!(ai.is_empty_cell(14, 14));
    assert!(!ai.is_empty_cell(15, 0));
}

#[test]
fn with_config_takes_depth_and_colour() {
    let ai = fixed_engine(4, true);
    assert_eq!(ai.depth(), 4);
    assert!(ai.ai_black());
    assert_eq!(ai.get_hash(), 0);
}

#[test]
fn with_config_resets_the_fingerprint() {
    let mut zobrist = GobangZobrist::from_keys(fixed_keys(1), fixed_keys(2)).unwrap();
    zobrist.update(3, 3, true);
    assert_ne!(zobrist.get_hash(), 0);
    let ai = AI::with_config(zobrist, 2, false);
    assert_eq!(ai.get_hash(), 0);
}

#[test]
fn steps_keep_sequences_and_sets_in_step() {
    let mut ai = fixed_engine(2, false);
    ai.ai_step(7, 7);
    ai.human_step(7, 8);
    ai.ai_step(6, 6);
    assert_eq!(ai.ai_steps(), &vec![(7, 7), (6, 6)]);
    assert_eq!(ai.human_steps(), &vec![(7, 8)]);
    assert_eq!(ai.all_steps(), &vec![(7, 7), (7, 8), (6, 6)]);
    assert!(!ai.is_empty_cell(7, 7));
    assert!(!ai.is_empty_cell(7, 8));
    assert!(!ai.is_empty_cell(6, 6));
    assert!(ai.is_empty_cell(8, 8));
}

#[test]
fn step_changes_fingerprint_by_the_key_of_the_stone() {
    let black = fixed_keys(1);
    let white = fixed_keys(2);
    let mut ai = fixed_engine(2, false);
    ai.ai_step(7, 7);
    assert_eq!(ai.get_hash(), white[7 * 15 + 7]);
    ai.human_step(0, 3);
    assert_eq!(ai.get_hash(), white[7 * 15 + 7] ^ black[3]);
    let mut other = fixed_engine(2, true);
    other.ai_step(7, 7);
    assert_eq!(other.get_hash(), black[7 * 15 + 7]);
}

#[test]
fn undo_in_reverse_order_restores_everything() {
    let mut ai = fixed_engine(2, true);
    ai.ai_step(7, 7);
    ai.human_step(7, 8);
    let all_before = ai.all_steps().clone();
    let ai_before = ai.ai_steps().clone();
    let human_before = ai.human_steps().clone();
    let hash_before = ai.get_hash();
    let moves = [
        (true, (6, 6)),
        (false, (8, 8)),
        (true, (0, 0)),
        (true, (14, 14)),
        (false, (3, 11)),
    ];
    for &(is_ai, (x, y)) in moves.iter() {
        if is_ai {
            ai.ai_step(x, y);
        } else {
            ai.human_step(x, y);
        }
    }
    assert_eq!(ai.all_steps().len(), 7);
    assert_ne!(ai.get_hash(), hash_before);
    for &(is_ai, (x, y)) in moves.iter().rev() {
        assert!(!ai.is_empty_cell(x, y));
        if is_ai {
            ai.undo_ai_step(x, y);
        } else {
            ai.undo_human_step(x, y);
        }
        assert!(ai.is_empty_cell(x, y));
    }
    assert_eq!(ai.all_steps(), &all_before);
    assert_eq!(ai.ai_steps(), &ai_before);
    assert_eq!(ai.human_steps(), &human_before);
    assert_eq!(ai.get_hash(), hash_before);
    assert!(!ai.is_empty_cell(7, 7));
    assert!(!ai.is_empty_cell(7, 8));
}

#[test]
fn fingerprint_ignores_the_order_of_play() {
    let mut one = fixed_engine(2, false);
    one.ai_step(7, 7);
    one.human_step(3, 4);
    let mut other = fixed_engine(2, false);
    other.human_step(3, 4);
    other.ai_step(7, 7);
    assert_eq!(one.get_hash(), other.get_hash());
    assert_ne!(one.get_hash(), 0);
}

#[test]
fn fingerprint_ignores_the_order_of_play_with_random_keys() {
    let mut ai = AI::new();
    ai.ai_step(1, 2);
    ai.ai_step(9, 9);
    let first = ai.get_hash();
    ai.undo_ai_step(9, 9);
    ai.undo_ai_step(1, 2);
    assert_eq!(ai.get_hash(), 0);
    ai.ai_step(9, 9);
    ai.ai_step(1, 2);
    assert_eq!(ai.get_hash(), first);
}

#[test]
fn fingerprint_tells_the_colours_apart() {
    let mut one = fixed_engine(2, false);
    one.ai_step(7, 7);
    let mut other = fixed_engine(2, false);
    other.human_step(7, 7);
    assert_ne!(one.get_hash(), other.get_hash());
}

#[test]
fn zobrist_from_keys_wants_one_key_per_cell() {
    assert!(GobangZobrist::from_keys(fixed_keys(1), fixed_keys(2)).is_some());
    assert!(GobangZobrist::from_keys(vec![1, 2, 3], fixed_keys(2)).is_none());
    assert!(GobangZobrist::from_keys(fixed_keys(1), Vec::new()).is_none());
    let mut long = fixed_keys(1);
    long.push(7);
    assert!(GobangZobrist::from_keys(long, fixed_keys(2)).is_none());
}

#[test]
fn zobrist_update_toggles_a_key() {
    let black = fixed_keys(1);
    let white = fixed_keys(2);
    let mut zobrist = GobangZobrist::from_keys(black.clone(), white.clone()).unwrap();
    assert_eq!(zobrist.get_hash(), 0);
    zobrist.update(2, 5, true);
    assert_eq!(zobrist.get_hash(), black[2 * 15 + 5]);
    zobrist.update(14, 14, false);
    assert_eq!(zobrist.get_hash(), black[2 * 15 + 5] ^ white[224]);
    zobrist.update(2, 5, true);
    assert_eq!(zobrist.get_hash(), white[224]);
    zobrist.update(14, 14, false);
    assert_eq!(zobrist.get_hash(), 0);
    zobrist.update(0, 0, false);
    zobrist.reset();
    assert_eq!(zobrist.get_hash(), 0);
}

#[test]
fn zobrist_new_starts_at_zero_and_toggles() {
    let mut zobrist = GobangZobrist::new();
    assert_eq!(zobrist.get_hash(), 0);
    zobrist.update(4, 4, true);
    zobrist.update(5, 5, false);
    let one = zobrist.get_hash();
    zobrist.update(5, 5, false);
    zobrist.update(4, 4, true);
    assert_eq!(zobrist.get_hash(), 0);
    zobrist.update(5, 5, false);
    zobrist.update(4, 4, true);
    assert_eq!(zobrist.get_hash(), one);
}

#[test]
fn win_horizontal_five() {
    let five = set_of(&[(7, 0), (7, 1), (7, 2), (7, 3), (7, 4)]);
    assert!(AI::game_win(&five));
    let four = set_of(&[(7, 0), (7, 1), (7, 2), (7, 3)]);
    assert!(!AI::game_win(&four));
}

#[test]
fn win_diagonal_five() {
    let down = set_of(&[(0, 0), (1, 1), (2, 2), (3, 3), (4, 4)]);
    assert!(AI::game_win(&down));
    let up = set_of(&[(0, 4), (1, 3), (2, 2), (3, 1), (4, 0)]);
    assert!(AI::game_win(&up));
}

#[test]
fn win_vertical_five_at_the_far_edge() {
    let column = set_of(&[(10, 14), (11, 14), (12, 14), (13, 14), (14, 14)]);
    assert!(AI::game_win(&column));
    let row = set_of(&[(14, 10), (14, 11), (14, 12), (14, 13), (14, 14)]);
    assert!(AI::game_win(&row));
    let anti = set_of(&[(10, 14), (11, 13), (12, 12), (13, 11), (14, 10)]);
    assert!(AI::game_win(&anti));
}

#[test]
fn win_needs_five_on_one_line() {
    assert!(!AI::game_win(&CellSet::new()));
    let wrapped = set_of(&[(0, 13), (0, 14), (1, 0), (1, 1), (1, 2)]);
    assert!(!AI::game_win(&wrapped));
    let gap = set_of(&[(7, 0), (7, 1), (7, 2), (7, 4), (7, 5)]);
    assert!(!AI::game_win(&gap));
    let bent = set_of(&[(3, 3), (4, 4), (5, 5), (6, 6), (7, 6)]);
    assert!(!AI::game_win(&bent));
    let six = set_of(&[(2, 2), (2, 3), (2, 4), (2, 5), (2, 6), (2, 7)]);
    assert!(AI::game_win(&six));
}

#[test]
fn game_over_records_the_winner() {
    let mut ai = fixed_engine(2, false);
    for y in 0..4 {
        ai.human_step(7, y);
        assert!(!ai.is_game_over());
        assert_eq!(ai.state, GameState::Idle);
    }
    ai.human_step(7, 4);
    assert!(ai.is_game_over());
    assert_eq!(ai.state, GameState::Human);

    let mut other = fixed_engine(2, false);
    for k in 0..5 {
        other.ai_step(k, k);
    }
    assert!(other.is_game_over());
    assert_eq!(other.state, GameState::AI);
}

#[test]
fn game_over_prefers_the_computer_when_both_have_five() {
    let mut ai = fixed_engine(2, false);
    for k in 0..5 {
        ai.human_step(0, k);
        ai.ai_step(1, k);
    }
    assert!(ai.is_game_over());
    assert_eq!(ai.state, GameState::AI);
}

#[test]
fn mixed_colours_do_not_win() {
    let mut ai = fixed_engine(2, false);
    ai.human_step(7, 0);
    ai.human_step(7, 1);
    ai.ai_step(7, 2);
    ai.human_step(7, 3);
    ai.human_step(7, 4);
    assert!(!ai.is_game_over());
    assert_eq!(ai.state, GameState::Idle);
}

#[test]
fn set_depth_changes_the_depth_only() {
    let mut ai = fixed_engine(2, true);
    ai.ai_step(7, 7);
    let hash = ai.get_hash();
    ai.set_depth(4);
    assert_eq!(ai.depth(), 4);
    assert_eq!(ai.depth, 4);
    assert!(ai.ai_black());
    assert_eq!(ai.get_hash(), hash);
    assert_eq!(ai.all_steps(), &vec![(7, 7)]);
}

#[test]
fn sides_are_asked_for_five_apart() {
    let mut ai = fixed_engine(2, false);
    for k in 0..5 {
        ai.human_step(k, 14 - k);
    }
    assert!(ai.human_has_five());
    assert!(!ai.ai_has_five());
}

#[test]
fn line_starts_are_told_from_line_ends() {
    let row = set_of(&[(7, 3), (7, 4), (7, 5), (7, 6), (7, 7)]);
    assert!(gobang::win::line_starts_at(&row, 7, 3));
    assert!(!gobang::win::line_starts_at(&row, 7, 7));
    assert!(!gobang::win::line_starts_at(&row, 7, 4));
    let anti = set_of(&[(0, 4), (1, 3), (2, 2), (3, 1), (4, 0)]);
    assert!(gobang::win::line_starts_at(&anti, 0, 4));
    assert!(!gobang::win::line_starts_at(&anti, 4, 0));
}

#[test]
fn crate_root_names_the_main_types() {
    let mut ai = gobang::AI::new();
    assert_eq!(ai.state, gobang::GameState::Idle);
    assert!(!ai.is_game_over());
    assert_eq!(gobang::BOARD_SIZE, 15);
    assert!(!gobang::CellSet::new().contains(0, 0));
    assert_eq!(gobang::GobangZobrist::new().get_hash(), 0);
}
