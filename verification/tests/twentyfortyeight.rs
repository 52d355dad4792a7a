use day_games::twentyfortyeight::{
    compute_move, key_direction, tile_color, tile_text_color, Difficulty, Game, Grid, Phase, Release, N, UNDOS,
};

/// The page's threshold: a drag released past this fraction of the slide span lands the move.
const COMMIT_FRACTION: f64 = 0.4;

/// How the page ends a drag that reached `t` of the slide span.
fn release_at(t: f64) -> Release {
    if t >= COMMIT_FRACTION {
        Release::Commit
    } else if t > 0.0 {
        Release::Back
    } else {
        Release::Still
    }
}

fn game_with(grid: Grid) -> Game {
    let mut g = Game::new(0x9E37_79B9_7F4A_7C15);
    g.grid = grid;
    g
}

/// Run the move animation to its end, as the page's clock does.
fn settle(g: &mut Game) {
    for _ in 0..200 {
        match g.anim.phase {
            Phase::Idle => break,
            Phase::Slide => g.finish_slide(),
            Phase::Pop => g.finish_pop(),
        }
    }
    assert_eq!(g.anim.phase, Phase::Idle, "animation settled");
}

fn tiles(g: &Game) -> usize {
    g.grid.iter().flatten().filter(|&&v| v != 0).count()
}

#[test]
fn easy_grants_three_undos_of_the_last_move() {
    let grid = [[2, 0, 0, 2], [0, 0, 0, 0], [0, 0, 0, 0], [0, 0, 0, 0]];
    let mut g = game_with(grid);
    g.restart(Difficulty::Easy);
    g.grid = grid;
    g.score = 0;
    assert!(!g.can_undo(), "nothing to take back yet");
    g.preview(0);
    g.release_preview(release_at(0.9));
    settle(&mut g);
    assert_eq!(g.grid[0][0], 4);
    assert!(g.can_undo());
    assert!(g.undo());
    assert_eq!(g.grid, grid, "the move is taken back");
    assert_eq!(g.score, 0);
    assert_eq!(g.undos_left, UNDOS - 1);
    assert!(!g.undo(), "one undo per move");
    // Normal never grants one.
    let mut n = game_with(grid);
    n.preview(0);
    n.release_preview(release_at(0.9));
    settle(&mut n);
    assert!(!n.can_undo());
}

#[test]
fn hard_spawns_two_tiles_a_move_and_easy_only_twos() {
    let grid = [[2, 0, 0, 2], [0, 0, 0, 0], [0, 0, 0, 0], [0, 0, 0, 0]];
    let mut h = game_with(grid);
    h.restart(Difficulty::Hard);
    h.grid = grid;
    h.preview(0);
    h.release_preview(release_at(0.9));
    settle(&mut h);
    assert_eq!(tiles(&h), 3, "the merged tile plus two spawns");
    let mut e = Game::new(7);
    e.restart(Difficulty::Easy);
    for _ in 0..40 {
        e.grid = [[0; N]; N];
        e.spawn();
        assert!(e.grid.iter().flatten().all(|&v| v == 0 || v == 2));
    }
}

#[test]
fn preview_is_provisional_and_cancel_changes_nothing() {
    let grid = [[2, 0, 0, 2], [0, 0, 0, 0], [0, 0, 0, 0], [0, 0, 0, 0]];
    let mut g = game_with(grid);
    // Drag left, part way; nothing is applied while previewing.
    g.preview(0);
    assert!(g.pending.is_some());
    assert_eq!(g.grid, grid, "grid untouched during preview");
    assert_eq!(g.score, 0, "score untouched during preview");
    // Slide back toward the origin and release: the move is abandoned.
    g.preview(0);
    g.release_preview(release_at(0.05));
    settle(&mut g);
    assert_eq!(g.grid, grid, "cancelled release leaves the board as it was");
    assert_eq!(g.score, 0);
}

#[test]
fn preview_release_past_threshold_commits() {
    let grid = [[2, 0, 0, 2], [0, 0, 0, 0], [0, 0, 0, 0], [0, 0, 0, 0]];
    let mut g = game_with(grid);
    g.preview(0);
    g.release_preview(release_at(0.9));
    settle(&mut g);
    assert_eq!(g.grid[0][0], 4, "the pair merged left");
    assert_eq!(g.score, 4, "the merge scored");
    assert_eq!(tiles(&g), 2, "a new tile spawned after the commit");
}

#[test]
fn preview_recomputes_when_the_drag_changes_direction() {
    let grid = [[2, 0, 0, 2], [0, 0, 0, 0], [0, 0, 0, 0], [2, 0, 0, 0]];
    let mut g = game_with(grid);
    g.preview(0);
    assert_eq!(g.pending.as_ref().map(|p| p.dir), Some(0));
    g.preview(3);
    assert_eq!(g.pending.as_ref().map(|p| p.dir), Some(3));
    assert_eq!(g.grid, grid, "still nothing applied");
}

#[test]
fn a_move_merges_each_pair_once_and_scores_the_merges() {
    let grid = [[2, 2, 2, 2], [4, 4, 8, 0], [0, 0, 0, 0], [2, 0, 2, 4]];
    let p = compute_move(&grid, 0).expect("the rows slide left");
    assert_eq!(p.next, [[4, 4, 0, 0], [8, 8, 0, 0], [0, 0, 0, 0], [4, 4, 0, 0]]);
    assert_eq!(p.gained, 4 + 4 + 8 + 4);
    let right = compute_move(&grid, 1).expect("the rows slide right");
    assert_eq!(right.next, [[0, 0, 4, 4], [0, 0, 8, 8], [0, 0, 0, 0], [0, 0, 4, 4]]);
}

#[test]
fn a_move_that_changes_nothing_is_refused() {
    let grid = [[2, 4, 8, 16], [0, 0, 0, 0], [0, 0, 0, 0], [0, 0, 0, 0]];
    assert!(compute_move(&grid, 0).is_none());
    assert!(compute_move(&grid, 2).is_none());
    assert!(compute_move(&grid, 3).is_some());
}

#[test]
fn a_slide_keeps_the_sum_of_the_tiles() {
    let grid = [[2, 2, 4, 0], [0, 2, 0, 2], [8, 8, 8, 8], [0, 0, 4, 4]];
    let before: u32 = grid.iter().flatten().sum();
    for dir in 0..4u8 {
        if let Some(p) = compute_move(&grid, dir) {
            let after: u32 = p.next.iter().flatten().sum();
            assert_eq!(after, before, "direction {dir}");
        }
    }
}

#[test]
fn a_full_board_without_pairs_is_game_over() {
    let mut g = game_with([[2, 4, 2, 4], [4, 2, 4, 2], [2, 4, 2, 4], [4, 2, 4, 2]]);
    assert!(!g.any_moves_left());
    g.grid[3][3] = 4;
    assert!(g.any_moves_left());
}

#[test]
fn difficulties_set_the_spawn_rules() {
    assert_eq!(Difficulty::Easy.tiles_per_spawn(), 1);
    assert_eq!(Difficulty::Hard.tiles_per_spawn(), 2);
    assert!(Difficulty::Easy.undo_allowed());
    assert!(!Difficulty::Normal.undo_allowed());
    assert_eq!(Difficulty::Easy.four_odds(), 0);
    assert_eq!(Difficulty::Normal.id(), "tf-diff-normal");
}

#[test]
fn the_arrows_pick_the_slide() {
    assert_eq!(key_direction("ArrowLeft"), Some(0));
    assert_eq!(key_direction("ArrowRight"), Some(1));
    assert_eq!(key_direction("ArrowUp"), Some(2));
    assert_eq!(key_direction("ArrowDown"), Some(3));
    assert_eq!(key_direction("Enter"), None);
}

#[test]
fn tiles_warm_up_to_2048_then_darken() {
    assert_eq!(tile_color(2), 0xEE_E4_DA);
    assert_eq!(tile_color(2048), 0xED_C2_2E);
    assert_eq!(tile_color(4096), 0x3C_3A_32);
    assert_eq!(tile_text_color(4), 0x77_6E_65);
    assert_eq!(tile_text_color(8), 0xF9_F6_F2);
}

#[test]
fn a_save_restores_the_board_and_scores() {
    let grid = [[2, 4, 0, 0], [0, 8, 0, 0], [0, 0, 16, 0], [0, 0, 0, 2]];
    let mut g = game_with(grid);
    g.restart(Difficulty::Easy);
    g.grid = grid;
    g.score = 120;
    g.best = 300;
    let s = g.save_state(11);
    let mut back = Game::new(3);
    back.apply_save(s);
    assert_eq!(back.grid, grid);
    assert_eq!(back.score, 120);
    assert_eq!(back.best, 300);
    assert_eq!(back.difficulty, Difficulty::Easy);
    assert_eq!(back.undos_left, UNDOS);
    assert!(!back.game_over);
}

#[test]
fn a_save_taken_mid_slide_is_granted_its_spawn() {
    let mut g = game_with([[2, 0, 0, 2], [0, 0, 0, 0], [0, 0, 0, 0], [0, 0, 0, 0]]);
    g.preview(0);
    g.release_preview(release_at(0.9));
    assert_eq!(g.anim.phase, Phase::Slide, "mid-slide");
    let s = g.save_state(5);
    assert!(s.spawn_due);
    let mut h = Game::new(77);
    h.apply_save(s);
    assert_eq!(h.score, 4);
    assert_eq!(h.anim.phase, Phase::Idle);
    assert_eq!(h.grid[0][0], 4);
    assert_eq!(tiles(&h), 2, "the settled board plus the spawn the slide owed");
}

#[test]
fn a_settled_save_owes_no_spawn() {
    let grid = [[2, 0, 0, 2], [0, 0, 0, 0], [0, 0, 0, 0], [0, 0, 0, 0]];
    let g = game_with(grid);
    let s = g.save_state(5);
    assert!(!s.spawn_due);
    let mut h = Game::new(77);
    h.apply_save(s);
    assert_eq!(h.grid, grid);
}

#[test]
fn a_move_scores_the_tiles_its_merges_make() {
    let grid = [[2, 2, 4, 4], [8, 0, 8, 0], [0, 0, 0, 0], [2, 4, 8, 16]];
    let p = compute_move(&grid, 0).expect("the rows slide left");
    let sum: i64 = p.pops.iter().map(|&(r, c)| p.next[r][c] as i64).sum();
    assert_eq!(p.gained, sum);
    assert_eq!(p.gained, 4 + 8 + 16);
}

#[test]
fn packed_lines_refuse_the_move() {
    // Every row is packed against the left wall with no equal neighbours.
    let packed = [[2, 4, 0, 0], [8, 0, 0, 0], [0, 0, 0, 0], [2, 4, 8, 16]];
    assert!(compute_move(&packed, 0).is_none());
    // A gap in one row, or a pair, is enough to move.
    let gap = [[2, 0, 4, 0], [8, 0, 0, 0], [0, 0, 0, 0], [2, 4, 8, 16]];
    assert!(compute_move(&gap, 0).is_some());
    let pair = [[2, 2, 0, 0], [8, 0, 0, 0], [0, 0, 0, 0], [2, 4, 8, 16]];
    assert!(compute_move(&pair, 0).is_some());
}
