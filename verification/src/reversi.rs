//! Reversi's keyboard: the cursor on the eight by eight board, and what a key does there.

use vstd::prelude::*;
use crate::keys::{above, below, cursor_step, is_either, is_key, left_of, right_of};

verus! {

/// Squares on a side of the board.
pub const SIDE: usize = 8;

/// What a key does on the Reversi board.
#[derive(Clone, Copy, Debug, PartialEq, Eq, Structural)]
pub enum KeyAction {
    /// Move the keyboard cursor to this square.
    Move(usize),
    /// Play a disc on this square.
    Play(usize),
    /// Pause.
    Pause,
    /// Nothing.
    Ignore,
}

/// The key rules with the cursor on square `i`: arrows step the cursor (wrapping at the
/// edges), space or Enter plays there, Escape or P pauses; nothing while a card covers the
/// board.
pub open spec fn key_rule(key: Seq<char>, covered: bool, i: int) -> KeyAction {
    if covered {
        KeyAction::Ignore
    } else if key == "ArrowLeft"@ {
        KeyAction::Move(left_of(i, 8) as usize)
    } else if key == "ArrowRight"@ {
        KeyAction::Move(right_of(i, 8) as usize)
    } else if key == "ArrowUp"@ {
        KeyAction::Move(above(i, 8) as usize)
    } else if key == "ArrowDown"@ {
        KeyAction::Move(below(i, 8) as usize)
    } else if key == " "@ || key == "Enter"@ || key == "Return"@ {
        KeyAction::Play(i as usize)
    } else if key == "Escape"@ || key == "p"@ || key == "P"@ {
        KeyAction::Pause
    } else {
        KeyAction::Ignore
    }
}

/// What `key` does with the cursor on square `i`, `covered` when a card is over the board.
pub fn key_action(key: &str, covered: bool, i: usize) -> (a: KeyAction)
    requires
        i < SIDE * SIDE,
    ensures
        a == key_rule(key@, covered, i as int),
{
    if covered {
        KeyAction::Ignore
    } else if is_key(key, "ArrowLeft") {
        KeyAction::Move(cursor_step(i, SIDE, 0))
    } else if is_key(key, "ArrowRight") {
        KeyAction::Move(cursor_step(i, SIDE, 1))
    } else if is_key(key, "ArrowUp") {
        KeyAction::Move(cursor_step(i, SIDE, 2))
    } else if is_key(key, "ArrowDown") {
        KeyAction::Move(cursor_step(i, SIDE, 3))
    } else if is_either(key, " ", "Enter") || is_key(key, "Return") {
        KeyAction::Play(i)
    } else if is_key(key, "Escape") || is_either(key, "p", "P") {
        KeyAction::Pause
    } else {
        KeyAction::Ignore
    }
}

} // verus!
