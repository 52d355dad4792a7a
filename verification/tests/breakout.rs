use day_games::breakout::{
    opening_overlay, Overlay, StepOutcome,
    brick_hp, key_control, Board, Control, Hit, Power, BRICKS, CATCH_SCORE, COLS, MAX_LIVES,
    ROW_POINTS, START_LIVES,
};

fn game() -> Board {
    let mut g = Board::new(0xC0FFEE);
    g.new_game();
    g
}

#[test]
fn armored_bricks_take_several_hits_on_later_levels() {
    let mut g = game();
    g.start_level(4);
    assert_eq!(g.bricks[0].hp, 3);
    assert_eq!(g.bricks[COLS].hp, 2);
    assert_eq!(g.bricks[2 * COLS].hp, 1);
    g.on_brick_hit(0, true);
    assert_eq!(g.bricks[0].hp, 2);
    assert_eq!(g.score, 1, "a dent scores one");
    assert!(g.combo == 0);
}

#[test]
fn breaking_bricks_scores_with_combo_and_drops_the_carried_power_up() {
    let mut g = game();
    g.launch();
    let i = (0..BRICKS).find(|&i| g.bricks[i].power.is_some()).unwrap();
    let carried = g.bricks[i].power;
    g.bricks[i].hp = 1;
    let hit = g.on_brick_hit(i, true);
    assert!(!g.bricks[i].alive());
    assert_eq!(g.combo, 1);
    assert_eq!(g.score, ROW_POINTS[i / COLS]);
    match hit {
        Hit::Broken { drop, .. } => assert_eq!(drop, carried, "the carried power-up falls"),
        Hit::Dented => panic!("a one-point brick breaks"),
    }
    // A second break inside the combo window doubles.
    let j = (0..BRICKS)
        .find(|&j| g.bricks[j].alive() && j / COLS == i / COLS)
        .unwrap();
    g.bricks[j].hp = 1;
    let before = g.score;
    g.on_brick_hit(j, true);
    assert_eq!(g.score - before, ROW_POINTS[j / COLS] * 2);
}

#[test]
fn losing_the_last_ball_costs_a_life_then_the_game() {
    let mut g = game();
    g.lives = 1;
    g.launch();
    assert!(g.lose_ball());
    assert!(g.game_over);
    assert_eq!(g.lives, 0);
}

#[test]
fn clearing_the_wall_completes_the_level_and_records_the_best() {
    let mut g = game();
    g.launch();
    for b in g.bricks.iter_mut() {
        b.hp = 0;
    }
    g.score = 120;
    assert!(g.complete_if_cleared());
    assert!(g.level_complete);
    assert_eq!(g.best, 120);
    g.start_level(2);
    assert!(!g.level_complete && !g.launched);
    assert_eq!(g.level, 2);
    assert!(g.bricks.iter().all(|b| b.alive()));
}

#[test]
fn smash_ball_passes_through_bricks() {
    let mut g = game();
    g.launch();
    g.start_level(4);
    assert_eq!(g.bricks[0].hp, 3);
    g.smash_brick(0, true);
    assert!(!g.bricks[0].alive());
    g.smash_brick(3 * COLS + 4, true);
    assert!(!g.bricks[3 * COLS + 4].alive());
}

#[test]
fn save_restore_keeps_the_wall_and_progress() {
    let mut g = game();
    g.launch();
    g.bricks[5].hp = 0;
    g.score = 33;
    g.level = 2;
    let s = g.save();
    let mut g2 = game();
    assert!(g2.apply_save(s));
    assert!(!g2.bricks[5].alive());
    assert!(g2.bricks[6].alive());
    assert_eq!(g2.score, 33);
    assert_eq!(g2.level, 2);
    assert!(g2.launched);
}

#[test]
fn a_snapshot_of_the_wrong_size_is_ignored() {
    let g = game();
    let mut s = g.save();
    s.alive.pop();
    s.score = 999;
    let mut g2 = game();
    assert!(!g2.apply_save(s));
    assert_eq!(g2.score, 0);
}

#[test]
fn a_fresh_game_starts_on_level_one_with_three_lives() {
    let g = game();
    assert_eq!(g.lives, START_LIVES);
    assert_eq!(g.level, 1);
    assert_eq!(g.bricks.len(), BRICKS);
    assert!(g.bricks.iter().all(|b| b.hp == 1));
    let carriers = g.bricks.iter().filter(|b| b.power.is_some()).count();
    assert!((2..=4).contains(&carriers), "two to four power-up bricks, got {carriers}");
}

#[test]
fn brick_strength_by_row_and_level() {
    assert_eq!(brick_hp(0, 1), 1);
    assert_eq!(brick_hp(0, 2), 2);
    assert_eq!(brick_hp(1, 2), 1);
    assert_eq!(brick_hp(1, 3), 2);
    assert_eq!(brick_hp(0, 4), 3);
    assert_eq!(brick_hp(2, 9), 1);
}

#[test]
fn a_caught_power_up_scores_and_lives_cap_at_five() {
    let mut g = game();
    g.catch_power(Power::Wide);
    assert_eq!(g.score, CATCH_SCORE);
    assert_eq!(g.lives, START_LIVES);
    for _ in 0..5 {
        g.catch_power(Power::ExtraLife);
    }
    assert_eq!(g.lives, MAX_LIVES);
}

#[test]
fn launch_only_once_per_ball() {
    let mut g = game();
    assert!(g.launch().is_some());
    assert!(g.launched);
    assert!(g.launch().is_none());
    assert!(!g.lose_ball());
    assert!(!g.launched, "the ball waits on the paddle again");
    assert_eq!(g.lives, START_LIVES - 1);
}

#[test]
fn the_arrows_steer_and_launch() {
    assert_eq!(key_control("ArrowLeft"), Some(Control::NudgeLeft));
    assert_eq!(key_control("ArrowRight"), Some(Control::NudgeRight));
    assert_eq!(key_control("ArrowUp"), Some(Control::Launch));
    assert_eq!(key_control("ArrowDown"), None);
}

#[test]
fn power_up_badges() {
    assert_eq!(Power::ExtraLife.letter(), "+1");
    assert_eq!(Power::Wide.letter(), "W");
}

#[test]
fn launch_starts_the_ball_upward() {
    let mut g = game();
    assert!(!g.launched);
    let draw = g.launch().expect("a parked ball launches");
    assert!(g.launched);
    // The page turns the draw into an angle within 0.4 rad of straight up.
    let unit = (draw >> 11) as f64 / (1u64 << 53) as f64;
    let angle = -0.4 + 0.8 * unit;
    let dy = -300.0 * angle.cos();
    assert!(dy < 0.0);
}

#[test]
fn a_step_decides_lives_promotion_and_the_level() {
    let mut g = game();
    assert_eq!(g.end_of_step(true, false), StepOutcome::Idle, "nothing before launch");
    g.launch();
    assert_eq!(g.end_of_step(false, false), StepOutcome::Continue);
    assert_eq!(g.end_of_step(true, true), StepOutcome::Promoted);
    assert_eq!(g.lives, START_LIVES, "an extra took over: no life lost");
    assert_eq!(g.end_of_step(true, false), StepOutcome::LifeLost);
    assert_eq!(g.lives, START_LIVES - 1);
    assert!(!g.launched);
    g.launch();
    g.lives = 1;
    g.score = 70;
    assert_eq!(g.end_of_step(true, false), StepOutcome::GameOver);
    assert!(g.game_over);
    assert_eq!(g.best, 70);
    let mut h = game();
    h.launch();
    for b in h.bricks.iter_mut() {
        b.hp = 0;
    }
    assert_eq!(h.end_of_step(true, true), StepOutcome::LevelComplete);
    assert!(h.level_complete);
}

#[test]
fn the_page_opens_on_the_right_card() {
    let mut g = game();
    assert_eq!(opening_overlay(false, false, &g), Overlay::Instructions);
    assert_eq!(opening_overlay(true, false, &g), Overlay::Clear);
    g.launch();
    assert_eq!(opening_overlay(true, true, &g), Overlay::Pause);
    g.game_over = true;
    assert_eq!(opening_overlay(true, true, &g), Overlay::GameOver);
    g.game_over = false;
    g.level_complete = true;
    assert_eq!(opening_overlay(true, false, &g), Overlay::LevelComplete);
}
