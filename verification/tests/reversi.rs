use day_games::reversi::{key_action, KeyAction};

#[test]
fn arrows_wrap_on_the_eight_by_eight_board() {
    assert_eq!(key_action("ArrowLeft", false, 8), KeyAction::Move(15));
    assert_eq!(key_action("ArrowRight", false, 15), KeyAction::Move(8));
    assert_eq!(key_action("ArrowUp", false, 3), KeyAction::Move(59));
    assert_eq!(key_action("ArrowDown", false, 59), KeyAction::Move(3));
    assert_eq!(key_action("ArrowDown", false, 27), KeyAction::Move(35));
}

#[test]
fn enter_plays_and_escape_pauses() {
    assert_eq!(key_action("Enter", false, 19), KeyAction::Play(19));
    assert_eq!(key_action(" ", false, 19), KeyAction::Play(19));
    assert_eq!(key_action("Return", false, 19), KeyAction::Play(19));
    assert_eq!(key_action("Escape", false, 19), KeyAction::Pause);
    assert_eq!(key_action("P", false, 19), KeyAction::Pause);
    assert_eq!(key_action("Enter", true, 19), KeyAction::Ignore);
    assert_eq!(key_action("x", false, 19), KeyAction::Ignore);
}
