use day_games::sirtet::{key_control, valid, Control, Game, COLS, EMPTY, ROWS};

#[test]
fn a_line_clear_raises_its_call_out_then_fades() {
    let mut g = Game::new(0x2545_F491_4F6C_DD1D);
    // Fill the bottom row but its last cell, then lock a vertical I piece into the gap.
    for c in 0..COLS - 1 {
        g.grid[(ROWS - 1) * COLS + c] = 0;
    }
    g.kind = 0; // I
    g.rot = 1; // vertical: cells (0..4, 2) of the 4×4 box
    g.pcol = (COLS - 1) as i32 - 2;
    g.prow = (ROWS - 4) as i32;
    assert!(valid(&g.grid, g.kind, g.rot, g.prow, g.pcol), "the piece fits the gap");
    g.lock();
    assert_eq!(g.clear_popup, Some(1));
    assert_eq!(g.clearing.len(), 1);
    // The page's clock lets the call-out live out its time, then expires it.
    g.expire_popup();
    assert!(g.clear_popup.is_none(), "the call-out expires");
}

#[test]
fn a_cleared_row_scores_and_the_rows_above_fall() {
    let mut g = Game::new(99);
    for c in 0..COLS - 1 {
        g.grid[(ROWS - 1) * COLS + c] = 3;
    }
    g.grid[(ROWS - 2) * COLS] = 5;
    g.kind = 0;
    g.rot = 1;
    g.pcol = (COLS - 1) as i32 - 2;
    g.prow = (ROWS - 4) as i32;
    g.lock();
    assert_eq!(g.clearing, vec![ROWS - 1]);
    g.commit_clears();
    assert_eq!(g.lines, 1);
    assert_eq!(g.score, 100, "one line on level one");
    assert!(g.clearing.is_empty());
    // The square that sat on the cleared row dropped into it; the I's top three cells too.
    assert_eq!(g.grid[(ROWS - 1) * COLS], 5);
    assert_eq!(g.grid[(ROWS - 1) * COLS + COLS - 1], 0);
    assert_eq!(g.grid[(ROWS - 2) * COLS + 1], EMPTY);
}

#[test]
fn a_fresh_game_deals_from_a_full_bag() {
    let g = Game::new(12345);
    assert!(g.grid.iter().all(|&s| s == EMPTY));
    assert!(g.kind < 7 && g.next < 7);
    assert_eq!(g.score, 0);
    assert!(!g.game_over);
    // The bag holds the kinds not yet dealt, each once.
    let mut seen = [false; 7];
    for &k in &g.bag {
        assert!(!seen[k]);
        seen[k] = true;
    }
}

#[test]
fn the_level_rises_every_ten_lines_up_to_fifteen() {
    let mut g = Game::new(5);
    g.lines = 0;
    assert_eq!(g.level(), 1);
    g.lines = 19;
    assert_eq!(g.level(), 2);
    g.lines = 500;
    assert_eq!(g.level(), 15);
}

#[test]
fn a_piece_cannot_leave_the_well() {
    let mut g = Game::new(77);
    g.kind = 1;
    g.rot = 0;
    g.prow = 0;
    g.pcol = 0;
    let before = g.pcol;
    for _ in 0..20 {
        g.move_dxy(-1);
    }
    assert!(g.pcol <= before);
    assert!(valid(&g.grid, g.kind, g.rot, g.prow, g.pcol));
    let ghost = g.ghost_row();
    assert!(ghost >= g.prow);
    assert!(!valid(&g.grid, g.kind, g.rot, ghost + 1, g.pcol));
}

#[test]
fn the_arrows_steer_the_piece() {
    assert_eq!(key_control("ArrowLeft"), Some(Control::Left));
    assert_eq!(key_control("ArrowRight"), Some(Control::Right));
    assert_eq!(key_control("ArrowUp"), Some(Control::Rotate));
    assert_eq!(key_control("ArrowDown"), Some(Control::Drop));
    assert_eq!(key_control("x"), None);
}

#[test]
fn a_save_restores_the_well_and_pieces() {
    let mut g = Game::new(31);
    g.grid[150] = 2;
    g.score = 40;
    g.best = 90;
    g.lines = 3;
    let s = g.save_state(8);
    let mut back = Game::new(1234);
    back.apply_save(s);
    assert_eq!(back.grid, g.grid);
    assert_eq!((back.kind, back.rot, back.prow, back.pcol), (g.kind, g.rot, g.prow, g.pcol));
    assert_eq!(back.bag, g.bag);
    assert_eq!(back.next, g.next);
    assert_eq!((back.score, back.best, back.lines), (40, 90, 3));
}
