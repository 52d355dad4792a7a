use day_games::mines::{claim_at_release, claim_at_tap, key_action, KeyAction, Press};

fn down() -> Option<Press> {
    Some(Press {
        cell: 4,
        moved: false,
        handled: false,
    })
}

/// Android's order: the drag ends, then the tap arrives. One move, not a flag and its undo.
#[test]
fn a_release_then_a_tap_is_one_move() {
    let mut press = down();
    assert!(claim_at_release(&mut press));
    assert!(!claim_at_tap(&mut press));
    assert!(press.is_none());
}

#[test]
fn a_tap_then_a_release_is_one_move() {
    let mut press = down();
    assert!(claim_at_tap(&mut press));
    assert!(!claim_at_release(&mut press));
}

#[test]
fn a_tap_or_a_release_alone_still_moves() {
    assert!(claim_at_tap(&mut None));
    assert!(claim_at_release(&mut down()));
}

/// The frame clock marks a held press when it flags; neither report may act on it again.
#[test]
fn a_hold_leaves_nothing_for_the_release_or_the_tap() {
    let mut press = down();
    if let Some(p) = press.as_mut() {
        p.handled = true;
    }
    assert!(!claim_at_release(&mut press));
    assert!(!claim_at_tap(&mut press));
}

/// A slide is no tap at its release, but a platform that still calls it a tap is believed.
#[test]
fn a_slide_acts_only_if_the_platform_reports_a_tap() {
    let mut press = down();
    if let Some(p) = press.as_mut() {
        p.moved = true;
    }
    assert!(!claim_at_release(&mut press));
    assert!(claim_at_tap(&mut press));
}

#[test]
fn a_release_keeps_the_press_marked_for_the_tap() {
    let mut press = down();
    claim_at_release(&mut press);
    assert_eq!(
        press,
        Some(Press {
            cell: 4,
            moved: false,
            handled: true
        })
    );
}

#[test]
fn the_arrows_wrap_around_the_board() {
    // A 9 by 9 board: 81 squares in rows of 9.
    assert_eq!(key_action("ArrowLeft", false, Some(0), 9, 81), KeyAction::Move(80));
    assert_eq!(key_action("ArrowRight", false, Some(80), 9, 81), KeyAction::Move(0));
    assert_eq!(key_action("ArrowUp", false, Some(4), 9, 81), KeyAction::Move(76));
    assert_eq!(key_action("ArrowDown", false, Some(76), 9, 81), KeyAction::Move(4));
    assert_eq!(key_action("ArrowRight", false, Some(8), 9, 81), KeyAction::Move(9));
}

#[test]
fn with_no_cursor_keys_start_from_the_middle() {
    assert_eq!(key_action(" ", false, None, 9, 81), KeyAction::Tap(40));
    assert_eq!(key_action("Enter", false, None, 9, 81), KeyAction::Tap(40));
    assert_eq!(key_action("f", false, Some(3), 9, 81), KeyAction::Hold(3));
    assert_eq!(key_action("F", false, Some(3), 9, 81), KeyAction::Hold(3));
    assert_eq!(key_action("Escape", false, None, 9, 81), KeyAction::Pause(40));
    assert_eq!(key_action("ArrowLeft", false, None, 9, 81), KeyAction::Move(39));
}

#[test]
fn keys_do_nothing_under_a_card() {
    assert_eq!(key_action("ArrowLeft", true, Some(5), 9, 81), KeyAction::Ignore);
    assert_eq!(key_action("q", false, Some(5), 9, 81), KeyAction::Ignore);
}
