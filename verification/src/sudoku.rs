//! Sudoku's keyboard: a digit fills the selected cell, 0 and the delete keys clear it, and the
//! arrows move the selection. Menu-bar platforms keep Delete and Backspace for their menus, so
//! 0 is the clear key every keyboard delivers.

use vstd::prelude::*;
use crate::keys::{is_either, is_key};
use vstd::string::StringSliceAdditionalSpecFns;

verus! {

/// The value of a digit key ("0" through "9"), from the bytes of its name.
pub open spec fn digit_rule(name: Seq<u8>) -> Option<u8> {
    if name.len() == 1 && 48 <= name[0] <= 57 {
        Some((name[0] - 48) as u8)
    } else {
        None
    }
}

/// The value of a digit key, or `None` for every other key.
pub fn digit(key: &str) -> (d: Option<u8>)
    ensures
        d == digit_rule(key.spec_bytes()),
{
    let b = key.as_bytes();
    if b.len() == 1 && 48 <= b[0] && b[0] <= 57 {
        Some(b[0] - 48)
    } else {
        None
    }
}

/// What a key does on the Sudoku board.
#[derive(Clone, Copy, Debug, PartialEq, Eq, Structural)]
pub enum KeyAction {
    /// Fill the selected cell with this digit, one to nine.
    Enter(u8),
    /// Clear the selected cell.
    Erase,
    /// Move the selection by these rows and columns.
    Move(i32, i32),
    /// Nothing.
    Ignore,
}

/// The key rules: digits before names, then the arrows and the delete keys; nothing while a
/// card covers the board.
pub open spec fn key_rule(key: Seq<char>, bytes: Seq<u8>, covered: bool) -> KeyAction {
    if covered {
        KeyAction::Ignore
    } else if digit_rule(bytes) is Some {
        let d = digit_rule(bytes)->0;
        if d == 0 { KeyAction::Erase } else { KeyAction::Enter(d) }
    } else if key == "ArrowLeft"@ {
        KeyAction::Move(0i32, -1i32)
    } else if key == "ArrowRight"@ {
        KeyAction::Move(0i32, 1i32)
    } else if key == "ArrowUp"@ {
        KeyAction::Move(-1i32, 0i32)
    } else if key == "ArrowDown"@ {
        KeyAction::Move(1i32, 0i32)
    } else if key == "Delete"@ || key == "Backspace"@ {
        KeyAction::Erase
    } else {
        KeyAction::Ignore
    }
}

/// What `key` does, `covered` when a card is over the board.
pub fn key_action(key: &str, covered: bool) -> (a: KeyAction)
    ensures
        a == key_rule(key@, key.spec_bytes(), covered),
{
    if covered {
        return KeyAction::Ignore;
    }
    match digit(key) {
        Some(d) => {
            return if d == 0 { KeyAction::Erase } else { KeyAction::Enter(d) };
        },
        None => {},
    }
    if is_key(key, "ArrowLeft") {
        KeyAction::Move(0, -1)
    } else if is_key(key, "ArrowRight") {
        KeyAction::Move(0, 1)
    } else if is_key(key, "ArrowUp") {
        KeyAction::Move(-1, 0)
    } else if is_key(key, "ArrowDown") {
        KeyAction::Move(1, 0)
    } else if is_either(key, "Delete", "Backspace") {
        KeyAction::Erase
    } else {
        KeyAction::Ignore
    }
}

} // verus!
