//! Pipes' input and records: what a key does to the keyboard cursor on the square board, and
//! the fewest moves each board size has been solved in.

use vstd::prelude::*;
use crate::keys::{above, below, cursor_step, is_either, is_key, left_of, right_of};

verus! {

/// What a key does on the Pipes board.
#[derive(Clone, Copy, Debug, PartialEq, Eq, Structural)]
pub enum KeyAction {
    /// Move the keyboard cursor to this tile.
    Move(usize),
    /// Turn this tile a quarter.
    Turn(usize),
    /// Lock or unlock this tile.
    Lock(usize),
    /// Pause.
    Pause,
    /// Nothing.
    Ignore,
}

/// The key rules on an `n` by `n` board with the cursor on tile `i`: arrows step the cursor
/// (wrapping), space or Enter turns the tile, L locks it, Escape or P pauses; nothing while a
/// card covers the board.
pub open spec fn key_rule(key: Seq<char>, covered: bool, i: int, n: int) -> KeyAction {
    if covered {
        KeyAction::Ignore
    } else if key == "ArrowLeft"@ {
        KeyAction::Move(left_of(i, n) as usize)
    } else if key == "ArrowRight"@ {
        KeyAction::Move(right_of(i, n) as usize)
    } else if key == "ArrowUp"@ {
        KeyAction::Move(above(i, n) as usize)
    } else if key == "ArrowDown"@ {
        KeyAction::Move(below(i, n) as usize)
    } else if key == " "@ || key == "Enter"@ || key == "Return"@ {
        KeyAction::Turn(i as usize)
    } else if key == "l"@ || key == "L"@ {
        KeyAction::Lock(i as usize)
    } else if key == "Escape"@ || key == "p"@ || key == "P"@ {
        KeyAction::Pause
    } else {
        KeyAction::Ignore
    }
}

/// What `key` does with the cursor on tile `i` of an `n` by `n` board, `covered` when a card is
/// over the board.
pub fn key_action(key: &str, covered: bool, i: usize, n: usize) -> (a: KeyAction)
    requires
        0 < n,
        n * n + i <= usize::MAX,
    ensures
        a == key_rule(key@, covered, i as int, n as int),
{
    if covered {
        KeyAction::Ignore
    } else if is_key(key, "ArrowLeft") {
        KeyAction::Move(cursor_step(i, n, 0))
    } else if is_key(key, "ArrowRight") {
        KeyAction::Move(cursor_step(i, n, 1))
    } else if is_key(key, "ArrowUp") {
        KeyAction::Move(cursor_step(i, n, 2))
    } else if is_key(key, "ArrowDown") {
        KeyAction::Move(cursor_step(i, n, 3))
    } else if is_either(key, " ", "Enter") || is_key(key, "Return") {
        KeyAction::Turn(i)
    } else if is_either(key, "l", "L") {
        KeyAction::Lock(i)
    } else if is_key(key, "Escape") || is_either(key, "p", "P") {
        KeyAction::Pause
    } else {
        KeyAction::Ignore
    }
}

/// The fewest moves each of the three board sizes has been solved in, smallest size first.
pub struct Records {
    pub best: [Option<u32>; 3],
}

/// The record after a solve in `moves`: the fewer of the two.
pub open spec fn recorded(best: Option<u32>, moves: u32) -> Option<u32> {
    match best {
        Some(b) => Some(if moves < b { moves } else { b }),
        None => Some(moves),
    }
}

impl Records {
    /// No board solved yet.
    pub fn new() -> (r: Records)
        ensures
            forall|k: int| 0 <= k < 3 ==> r.best[k] is None,
    {
        Records { best: [None, None, None] }
    }

    /// Record a solve of the board size at `index` in `moves` moves, keeping the best.
    pub fn record(&mut self, index: usize, moves: u32)
        requires
            index < 3,
        ensures
            final(self).best[index as int] == recorded(old(self).best[index as int], moves),
            forall|k: int| 0 <= k < 3 && k != index ==> final(self).best[k] == old(self).best[k],
    {
        let next = match self.best[index] {
            Some(b) => Some(if moves < b { moves } else { b }),
            None => Some(moves),
        };
        self.best[index] = next;
    }
}

} // verus!
