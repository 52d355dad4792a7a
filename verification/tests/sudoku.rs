use day_games::sudoku::{digit, key_action, KeyAction};

#[test]
fn digits_read_back_as_values() {
    for (d, name) in ["0", "1", "2", "3", "4", "5", "6", "7", "8", "9"].iter().enumerate() {
        assert_eq!(digit(name), Some(d as u8));
    }
    assert_eq!(digit("10"), None);
    assert_eq!(digit("a"), None);
    assert_eq!(digit(""), None);
}

#[test]
fn a_digit_fills_and_zero_clears() {
    assert_eq!(key_action("7", false), KeyAction::Enter(7));
    assert_eq!(key_action("0", false), KeyAction::Erase);
    assert_eq!(key_action("Delete", false), KeyAction::Erase);
    assert_eq!(key_action("Backspace", false), KeyAction::Erase);
}

#[test]
fn arrows_move_the_selection() {
    assert_eq!(key_action("ArrowLeft", false), KeyAction::Move(0, -1));
    assert_eq!(key_action("ArrowRight", false), KeyAction::Move(0, 1));
    assert_eq!(key_action("ArrowUp", false), KeyAction::Move(-1, 0));
    assert_eq!(key_action("ArrowDown", false), KeyAction::Move(1, 0));
    assert_eq!(key_action("Tab", false), KeyAction::Ignore);
    assert_eq!(key_action("5", true), KeyAction::Ignore);
}
