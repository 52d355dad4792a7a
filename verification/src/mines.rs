//! Mines' input rules: which report of a touch gets to act on the board, and what a key does.
//! A still touch can reach the board as a tap, as a zero-length drag, or as both in either order
//! (Android reports the drag's end and then the tap); one touch must still make one move, since a
//! tap in Flag Mode toggles and answering both reports would plant a flag and lift it again.

use vstd::prelude::*;
use crate::keys::{is_either, is_key};

verus! {

/// A finger or pointer on the board: the square it went down on, whether it wandered off (a
/// scroll), and whether it has already done something (a hold, a release or a tap that acted).
/// How long it has been held is measured by the page's frame clock.
#[derive(Clone, Copy, Debug, PartialEq, Eq, Structural)]
pub struct Press {
    pub cell: usize,
    pub moved: bool,
    pub handled: bool,
}

/// The press marked as having acted.
pub open spec fn spent(p: Press) -> Press {
    Press { cell: p.cell, moved: p.moved, handled: true }
}

/// Whether the end of a drag acts: only a press that neither slid nor already acted.
pub open spec fn release_acts(press: Option<Press>) -> bool {
    match press {
        Some(p) => !p.handled && !p.moved,
        None => false,
    }
}

/// The press after its drag ended: marked, if the release acted, and kept for the tap.
pub open spec fn after_release(press: Option<Press>) -> Option<Press> {
    match press {
        Some(p) if release_acts(press) => Some(spent(p)),
        _ => press,
    }
}

/// Whether a tap report acts: with no press (a backend that reports only taps) it does; on a
/// press that already acted it does not.
pub open spec fn tap_acts(press: Option<Press>) -> bool {
    match press {
        Some(p) => !p.handled,
        None => true,
    }
}

/// The press after a tap report: cleared if it was spent, else marked.
pub open spec fn after_tap(press: Option<Press>) -> Option<Press> {
    match press {
        Some(p) => if p.handled { None } else { Some(spent(p)) },
        None => None,
    }
}

/// Claim a press for the move its release makes, at the end of its drag: only a press that
/// neither slid nor already acted. The press stays behind, marked, for [`claim_at_tap`].
pub fn claim_at_release(press: &mut Option<Press>) -> (acted: bool)
    ensures
        acted == release_acts(*old(press)),
        *final(press) == after_release(*old(press)),
{
    match press {
        Some(p) => {
            if !p.handled && !p.moved {
                p.handled = true;
                true
            } else {
                false
            }
        },
        None => false,
    }
}

/// Claim a press for a tap report. With no press the tap acts; a press its release or a hold
/// already acted on is spent, and cleared.
pub fn claim_at_tap(press: &mut Option<Press>) -> (acted: bool)
    ensures
        acted == tap_acts(*old(press)),
        *final(press) == after_tap(*old(press)),
{
    let spent_already = match press {
        Some(p) => p.handled,
        None => {
            return true;
        },
    };
    if spent_already {
        *press = None;
        return false;
    }
    match press {
        Some(p) => {
            p.handled = true;
        },
        None => {},
    }
    true
}

/// One touch, one move: a press that has not acted yet acts exactly once, whether the release
/// or the tap is reported first, and a press that already acted (a hold) acts on neither.
pub proof fn lemma_a_touch_acts_once(p: Press)
    ensures
        !p.handled ==> (release_acts(Some(p)) != tap_acts(after_release(Some(p)))),
        !p.handled ==> tap_acts(Some(p)) && !release_acts(after_tap(Some(p))),
        p.handled ==> !release_acts(Some(p)) && !tap_acts(after_release(Some(p))),
        p.handled ==> !tap_acts(Some(p)) && !release_acts(after_tap(Some(p))),
{
}

/// What a key does on the Mines board.
#[derive(Clone, Copy, Debug, PartialEq, Eq, Structural)]
pub enum KeyAction {
    /// Move the keyboard cursor to this square.
    Move(usize),
    /// Act on this square as a tap does (uncover, or flag in Flag Mode); the cursor lands there.
    Tap(usize),
    /// Act on this square as a hold does (the other action); the cursor lands there.
    Hold(usize),
    /// Pause; the cursor shows on this square.
    Pause(usize),
    /// Nothing.
    Ignore,
}

/// The square `d` steps from `here` on a board of `len` squares, wrapping at both ends.
pub open spec fn step(here: int, d: int, len: int) -> int {
    (here + d) % len
}

/// Where the keyboard cursor is: the square it is on, or the middle of the board.
pub open spec fn cursor_here(cursor: Option<usize>, len: int) -> int {
    match cursor {
        Some(c) => c as int,
        None => len / 2,
    }
}

/// The key rules: arrows step the cursor (wrapping, a row being `cols` squares), space or
/// Enter acts as a tap, F as a hold, Escape pauses; nothing while a card covers the board.
pub open spec fn key_rule(key: Seq<char>, covered: bool, cursor: Option<usize>, cols: int, len: int) -> KeyAction {
    let here = cursor_here(cursor, len);
    if covered {
        KeyAction::Ignore
    } else if key == "ArrowLeft"@ {
        KeyAction::Move(step(here, -1, len) as usize)
    } else if key == "ArrowRight"@ {
        KeyAction::Move(step(here, 1, len) as usize)
    } else if key == "ArrowUp"@ {
        KeyAction::Move(step(here, -cols, len) as usize)
    } else if key == "ArrowDown"@ {
        KeyAction::Move(step(here, cols, len) as usize)
    } else if key == " "@ || key == "Enter"@ {
        KeyAction::Tap(here as usize)
    } else if key == "f"@ || key == "F"@ {
        KeyAction::Hold(here as usize)
    } else if key == "Escape"@ {
        KeyAction::Pause(here as usize)
    } else {
        KeyAction::Ignore
    }
}

/// `(here + d) mod len` for a step back of `back` squares or forward of `fwd`, on a board of
/// `len` squares.
fn wrap(here: usize, back: usize, fwd: usize, len: usize) -> (r: usize)
    requires
        0 < len < usize::MAX / 4,
        back <= len,
        fwd <= len,
    ensures
        r as int == step(here as int, fwd - back, len as int),
{
    let h = here % len;
    let r = (h + len - back + fwd) % len;
    proof {
        let k = here as int / len as int;
        let x = here as int + fwd as int - back as int;
        vstd::arithmetic::div_mod::lemma_fundamental_div_mod(here as int, len as int);
        assert(h + len - back + fwd == len * (1 - k) + x) by (nonlinear_arith)
            requires
                here as int == len * k + h,
                x == here as int + fwd as int - back as int;
        vstd::arithmetic::div_mod::lemma_mod_multiples_vanish(1 - k, x, len as int);
    }
    r
}

/// What `key` does, with the cursor at `cursor` on a board of `len` squares in rows of `cols`,
/// and `covered` when a card is over the board.
pub fn key_action(key: &str, covered: bool, cursor: Option<usize>, cols: usize, len: usize) -> (a: KeyAction)
    requires
        0 < len < usize::MAX / 4,
        cols <= len,
    ensures
        a == key_rule(key@, covered, cursor, cols as int, len as int),
{
    if covered {
        return KeyAction::Ignore;
    }
    let here: usize = match cursor {
        Some(c) => c,
        None => len / 2,
    };
    if is_key(key, "ArrowLeft") {
        KeyAction::Move(wrap(here, 1, 0, len))
    } else if is_key(key, "ArrowRight") {
        KeyAction::Move(wrap(here, 0, 1, len))
    } else if is_key(key, "ArrowUp") {
        KeyAction::Move(wrap(here, cols, 0, len))
    } else if is_key(key, "ArrowDown") {
        KeyAction::Move(wrap(here, 0, cols, len))
    } else if is_either(key, " ", "Enter") {
        KeyAction::Tap(here)
    } else if is_either(key, "f", "F") {
        KeyAction::Hold(here)
    } else if is_key(key, "Escape") {
        KeyAction::Pause(here)
    } else {
        KeyAction::Ignore
    }
}

} // verus!
