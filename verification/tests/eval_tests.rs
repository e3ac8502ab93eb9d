use gobang::ai::AI;
use gobang::board::CellSet;
use gobang::eval::{find_best_window, net_value, side_score, window_value};
use gobang::shape::{classify, five_shape, six_shape, ScoredWindow};
use gobang::zobrist::GobangZobrist;

fn cells(list: &[(usize, usize)]) -> CellSet {
    let mut set = CellSet::new();
    for &(x, y) in list {
        set.insert(x, y);
    }
    set
}

fn total(mine: &[(usize, usize)], enemy: &[(usize, usize)]) -> i64 {
    side_score(&mine.to_vec(), &cells(mine), &cells(enemy))
}

fn zero_keys_engine() -> AI {
    let zobrist = GobangZobrist::from_keys(vec![0; 225], vec![0; 225]).unwrap();
    AI::with_config(zobrist, 2, false)
}

fn keyed_engine() -> AI {
    let black: Vec<u64> = (0..225u64).map(|k| (k + 1) * 0x9E37_79B9_7F4A_7C15).collect();
    let white: Vec<u64> = (0..225u64).map(|k| (k + 7) * 0xC2B2_AE3D_27D4_EB4F).collect();
    AI::with_config(GobangZobrist::from_keys(black, white).unwrap(), 2, false)
}

#[test]
fn table_of_five_cell_shapes() {
    assert_eq!(five_shape(0, 1, 1, 0, 0), 50);
    assert_eq!(five_shape(0, 0, 1, 1, 0), 50);
    assert_eq!(five_shape(1, 1, 0, 1, 0), 200);
    assert_eq!(five_shape(0, 0, 1, 1, 1), 500);
    assert_eq!(five_shape(1, 1, 1, 0, 0), 500);
    assert_eq!(five_shape(0, 1, 1, 1, 0), 5000);
    assert_eq!(five_shape(1, 1, 1, 0, 1), 5000);
    assert_eq!(five_shape(1, 1, 0, 1, 1), 5000);
    assert_eq!(five_shape(1, 0, 1, 1, 1), 5000);
    assert_eq!(five_shape(1, 1, 1, 1, 0), 5000);
    assert_eq!(five_shape(0, 1, 1, 1, 1), 5000);
    assert_eq!(five_shape(1, 1, 1, 1, 1), 99_999_999);
}

#[test]
fn table_of_six_cell_shapes() {
    assert_eq!(six_shape(0, 1, 0, 1, 1, 0), 5000);
    assert_eq!(six_shape(0, 1, 1, 0, 1, 0), 5000);
    assert_eq!(six_shape(0, 1, 1, 1, 1, 0), 50000);
}

#[test]
fn shapes_outside_the_table_are_worth_nothing() {
    let mut listed = 0;
    for code in 0..1024u32 {
        let c: Vec<u8> = (0..5).map(|k| ((code >> (2 * k)) & 3) as u8).collect();
        if five_shape(c[0], c[1], c[2], c[3], c[4]) != 0 {
            listed += 1;
            assert!(c.iter().all(|&v| v <= 1));
        }
    }
    assert_eq!(listed, 12);
    let mut listed_six = 0;
    for code in 0..4096u32 {
        let c: Vec<u8> = (0..6).map(|k| ((code >> (2 * k)) & 3) as u8).collect();
        if six_shape(c[0], c[1], c[2], c[3], c[4], c[5]) != 0 {
            listed_six += 1;
        }
    }
    assert_eq!(listed_six, 3);
    assert_eq!(five_shape(0, 0, 0, 0, 0), 0);
    assert_eq!(five_shape(1, 0, 1, 0, 1), 0);
    assert_eq!(five_shape(0, 1, 0, 1, 0), 0);
    assert_eq!(five_shape(1, 1, 1, 1, 2), 0);
    assert_eq!(five_shape(3, 1, 1, 1, 1), 0);
    assert_eq!(six_shape(0, 1, 1, 1, 1, 2), 0);
    assert_eq!(six_shape(0, 1, 0, 0, 1, 0), 0);
}

#[test]
fn window_takes_the_better_of_five_and_six() {
    assert_eq!(window_value(0, 1, 1, 1, 1, 0), 50000);
    assert_eq!(window_value(0, 1, 1, 1, 1, 1), 5000);
    assert_eq!(window_value(0, 1, 1, 0, 1, 0), 5000);
    assert_eq!(window_value(0, 1, 1, 0, 0, 2), 50);
    assert_eq!(window_value(1, 1, 1, 1, 1, 3), 99_999_999);
    assert_eq!(window_value(2, 1, 1, 1, 1, 0), 0);
}

#[test]
fn window_of_a_simple_three_is_worth_500() {
    assert_eq!(window_value(0, 0, 1, 1, 1, 0), 500);
    assert_eq!(window_value(0, 0, 1, 1, 1, 2), 500);
    assert_eq!(window_value(1, 1, 1, 0, 0, 0), 500);
}

#[test]
fn classes_of_cells() {
    let mine = cells(&[(1, 1)]);
    let enemy = cells(&[(2, 2)]);
    assert_eq!(classify(&mine, &enemy, 0, 0), 0);
    assert_eq!(classify(&mine, &enemy, 1, 1), 1);
    assert_eq!(classify(&mine, &enemy, 2, 2), 2);
    assert_eq!(classify(&mine, &enemy, -1, 0), 3);
    assert_eq!(classify(&mine, &enemy, 0, -1), 3);
    assert_eq!(classify(&mine, &enemy, 15, 0), 3);
    assert_eq!(classify(&mine, &enemy, 0, 15), 3);
    assert_eq!(classify(&mine, &enemy, 14, 14), 0);
}

#[test]
fn net_value_rounds_towards_zero() {
    assert_eq!(net_value(500, 0), 500);
    assert_eq!(net_value(0, 0), 0);
    assert_eq!(net_value(100, 5), 99);
    assert_eq!(net_value(100, 10), 99);
    assert_eq!(net_value(100, 11), 98);
    assert_eq!(net_value(0, 55), -5);
    assert_eq!(net_value(0, 5), 0);
    assert_eq!(net_value(0, 10), -1);
    assert_eq!(net_value(1, 19), 0);
    assert_eq!(net_value(5000, 50), 4995);
    assert_eq!(net_value(99_999_999, 99_999_999), 89_999_999);
}

#[test]
fn three_against_the_edge_scores_500() {
    assert_eq!(total(&[(7, 12), (7, 13), (7, 14)], &[]), 500);
    assert_eq!(total(&[(7, 14), (7, 13), (7, 12)], &[]), 500);
    assert_eq!(total(&[(12, 3), (13, 3), (14, 3)], &[]), 500);
}

#[test]
fn three_blocked_on_one_side_scores_500() {
    assert_eq!(total(&[(7, 5), (7, 6), (7, 7)], &[(7, 8)]), 500);
    assert_eq!(total(&[(7, 5), (7, 6), (7, 7)], &[(7, 4)]), 500);
}

#[test]
fn open_three_scores_5000() {
    assert_eq!(total(&[(7, 5), (7, 6), (7, 7)], &[]), 5000);
    assert_eq!(total(&[(5, 5), (6, 6), (7, 7)], &[]), 5000);
    assert_eq!(total(&[(5, 9), (6, 8), (7, 7)], &[]), 5000);
}

#[test]
fn open_two_scores_50() {
    assert_eq!(total(&[(7, 7), (7, 8)], &[]), 50);
    assert_eq!(total(&[(7, 7), (8, 7)], &[]), 50);
}

#[test]
fn lone_stones_score_nothing() {
    assert_eq!(total(&[], &[]), 0);
    assert_eq!(total(&[(7, 7)], &[]), 0);
    assert_eq!(total(&[(0, 0), (14, 14), (7, 3)], &[(7, 7)]), 0);
}

#[test]
fn five_in_a_row_scores_the_top_value() {
    assert_eq!(total(&[(7, 0), (7, 1), (7, 2), (7, 3), (7, 4)], &[]), 99_999_999);
}

#[test]
fn open_four_scores_50000() {
    assert_eq!(total(&[(7, 3), (7, 4), (7, 5), (7, 6)], &[]), 50000);
}

#[test]
fn crossing_windows_earn_a_bonus() {
    assert_eq!(total(&[(7, 7), (7, 8), (8, 7)], &[]), 450);
}

#[test]
fn windows_that_share_several_cells_earn_one_bonus() {
    assert_eq!(total(&[(7, 2), (7, 3), (7, 6), (7, 7)], &[]), 450);
}

#[test]
fn a_window_recorded_twice_earns_no_bonus_with_itself() {
    assert_eq!(total(&[(7, 0), (7, 1), (7, 2), (7, 3), (7, 5)], &[]), 10000);
}

#[test]
fn best_window_is_the_first_of_the_best() {
    let mine = cells(&[(7, 7), (7, 8)]);
    let enemy = CellSet::new();
    let best = find_best_window(7, 7, 0, 1, &mine, &enemy);
    assert_eq!(best.score, 50);
    assert_eq!((best.x, best.y, best.dx, best.dy), (7, 5, 0, 1));
    let none = find_best_window(7, 7, 1, 0, &mine, &enemy);
    assert_eq!(none.score, 0);
    assert_eq!((none.x, none.y, none.dx, none.dy), (0, 0, 0, 0));
    let three = cells(&[(7, 5), (7, 6), (7, 7)]);
    let open = find_best_window(7, 5, 0, 1, &three, &enemy);
    assert_eq!(open.score, 5000);
    assert_eq!((open.x, open.y), (7, 4));
    let anti = cells(&[(7, 8), (8, 7)]);
    let slanted = find_best_window(7, 8, 1, -1, &anti, &enemy);
    assert_eq!(slanted.score, 50);
    assert_eq!((slanted.x, slanted.y, slanted.dx, slanted.dy), (5, 10, 1, -1));
}

#[test]
fn cal_score_skips_a_stone_in_a_recorded_window() {
    let mine = cells(&[(7, 7), (7, 8)]);
    let enemy = CellSet::new();
    let mut records: Vec<ScoredWindow> = Vec::new();
    assert_eq!(AI::cal_score(7, 7, 0, 1, &mine, &enemy, &mut records), 50);
    assert_eq!(records.len(), 1);
    assert_eq!(AI::cal_score(7, 8, 0, 1, &mine, &enemy, &mut records), 0);
    assert_eq!(records.len(), 1);
    assert_eq!(AI::cal_score(7, 8, 1, 0, &mine, &enemy, &mut records), 0);
    assert_eq!(records.len(), 2);
    assert_eq!(records[1].score, 0);
}

#[test]
fn cal_score_adds_the_bonus_of_each_overlapping_record() {
    let mine = cells(&[(7, 7), (7, 8), (8, 7)]);
    let enemy = CellSet::new();
    let mut records: Vec<ScoredWindow> = Vec::new();
    assert_eq!(AI::cal_score(7, 7, 0, 1, &mine, &enemy, &mut records), 50);
    assert_eq!(AI::cal_score(7, 7, 1, 0, &mine, &enemy, &mut records), 150);
    assert_eq!(AI::cal_score(7, 8, 1, -1, &mine, &enemy, &mut records), 250);
    assert_eq!(records.len(), 3);
}

#[test]
fn window_records_know_their_cells() {
    let window = ScoredWindow { score: 50, x: 5, y: 10, dx: 1, dy: -1 };
    assert!(window.covers_cell(5, 10));
    assert!(window.covers_cell(7, 8));
    assert!(window.covers_cell(9, 6));
    assert!(!window.covers_cell(10, 5));
    assert!(!window.covers_cell(4, 11));
    assert!(!window.covers_cell(7, 7));
    let row = ScoredWindow { score: 50, x: 7, y: 5, dx: 0, dy: 1 };
    assert!(row.shares_cell(&window));
    assert!(window.shares_cell(&row));
    let far = ScoredWindow { score: 50, x: 0, y: 0, dx: 0, dy: 1 };
    assert!(!far.shares_cell(&window));
    let none = ScoredWindow { score: 0, x: 7, y: 5, dx: 0, dy: 1 };
    assert!(!none.covers_cell(7, 5));
    assert!(!none.shares_cell(&row));
    assert!(!row.shares_cell(&none));
    assert!(row.is_same_window(&ScoredWindow { score: 50, x: 7, y: 5, dx: 0, dy: 1 }));
    assert!(!row.is_same_window(&window));
}

#[test]
fn evaluation_weighs_the_other_side_by_a_tenth() {
    let mut ai = keyed_engine();
    ai.ai_step(7, 12);
    ai.ai_step(7, 13);
    ai.ai_step(7, 14);
    ai.human_step(3, 3);
    ai.human_step(3, 4);
    assert_eq!(ai.evalution(true), 495);
    assert_eq!(ai.evalution(false), 0);
}

#[test]
fn evaluation_can_be_negative() {
    let mut ai = keyed_engine();
    ai.ai_step(0, 0);
    ai.human_step(7, 5);
    ai.human_step(7, 6);
    ai.human_step(7, 7);
    assert_eq!(ai.evalution(true), -500);
    assert_eq!(ai.evalution(false), 5000);
}

#[test]
fn evaluation_leaves_the_board_alone() {
    let mut ai = keyed_engine();
    ai.ai_step(7, 7);
    ai.human_step(7, 8);
    let hash = ai.get_hash();
    let first = ai.evalution(true);
    assert_eq!(ai.evalution(true), first);
    assert_eq!(ai.get_hash(), hash);
    assert_eq!(ai.all_steps(), &vec![(7, 7), (7, 8)]);
}

#[test]
fn evaluation_answers_from_the_cache_on_an_equal_fingerprint() {
    let mut ai = zero_keys_engine();
    ai.ai_step(7, 12);
    ai.ai_step(7, 13);
    ai.ai_step(7, 14);
    assert_eq!(ai.get_hash(), 0);
    assert_eq!(ai.evalution(true), 500);
    ai.ai_step(7, 11);
    assert_eq!(ai.get_hash(), 0);
    assert_eq!(ai.evalution(true), 500);
}

#[test]
fn evaluation_keeps_one_cache_for_each_colour_to_move() {
    let mut ai = zero_keys_engine();
    ai.ai_step(7, 12);
    ai.ai_step(7, 13);
    ai.ai_step(7, 14);
    assert_eq!(ai.evalution(true), 500);
    assert_eq!(ai.evalution(false), -50);
    assert_eq!(ai.evalution(true), 500);
}
