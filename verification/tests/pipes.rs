use day_games::keys::{cursor_step, is_either, is_key};
use day_games::pipes::{key_action, KeyAction, Records};

#[test]
fn arrows_wrap_within_the_row_and_the_column() {
    // A 5 by 5 board.
    assert_eq!(key_action("ArrowLeft", false, 5, 5), KeyAction::Move(9));
    assert_eq!(key_action("ArrowRight", false, 9, 5), KeyAction::Move(5));
    assert_eq!(key_action("ArrowUp", false, 2, 5), KeyAction::Move(22));
    assert_eq!(key_action("ArrowDown", false, 22, 5), KeyAction::Move(2));
    assert_eq!(key_action("ArrowRight", false, 12, 5), KeyAction::Move(13));
}

#[test]
fn every_step_is_undone_by_the_opposite_one() {
    for n in 1..8usize {
        for i in 0..n * n {
            let r = cursor_step(i, n, 1);
            assert!(r < n * n);
            assert_eq!(cursor_step(r, n, 0), i);
            let d = cursor_step(i, n, 3);
            assert_eq!(cursor_step(d, n, 2), i);
            assert_eq!(d % n, i % n);
            assert_eq!(r / n, i / n);
        }
    }
}

#[test]
fn action_keys_turn_lock_and_pause() {
    assert_eq!(key_action(" ", false, 7, 5), KeyAction::Turn(7));
    assert_eq!(key_action("Enter", false, 7, 5), KeyAction::Turn(7));
    assert_eq!(key_action("Return", false, 7, 5), KeyAction::Turn(7));
    assert_eq!(key_action("l", false, 7, 5), KeyAction::Lock(7));
    assert_eq!(key_action("L", false, 7, 5), KeyAction::Lock(7));
    assert_eq!(key_action("Escape", false, 7, 5), KeyAction::Pause);
    assert_eq!(key_action("p", false, 7, 5), KeyAction::Pause);
    assert_eq!(key_action("z", false, 7, 5), KeyAction::Ignore);
    assert_eq!(key_action("ArrowLeft", true, 7, 5), KeyAction::Ignore);
}

#[test]
fn records_keep_the_fewest_moves() {
    let mut r = Records::new();
    r.record(1, 40);
    assert_eq!(r.best, [None, Some(40), None]);
    r.record(1, 55);
    assert_eq!(r.best[1], Some(40));
    r.record(1, 31);
    assert_eq!(r.best[1], Some(31));
    r.record(2, 90);
    assert_eq!(r.best, [None, Some(31), Some(90)]);
}

#[test]
fn key_names_match_exactly() {
    assert!(is_key("ArrowLeft", "ArrowLeft"));
    assert!(!is_key("arrowleft", "ArrowLeft"));
    assert!(is_either("P", "p", "P"));
    assert!(!is_either("q", "p", "P"));
}
