//! Charades' round flow: where the game is, which phases the frame clock runs in, when a pause
//! is offered, what a key does in each phase, and the queue motion samples wait in for the
//! frame clock.

use vstd::prelude::*;
use crate::keys::{is_either, is_key};

verus! {

/// Where the game is: choosing a deck, waiting for the phone to go up, counting in, playing,
/// showing that time ran out, or listing the round's words.
#[derive(Clone, Copy, Debug, PartialEq, Eq, Structural)]
pub enum Phase {
    Decks,
    Ready,
    Countdown,
    Play,
    TimeUp,
    Results,
}

/// The phases the frame clock runs in.
pub open spec fn is_timed(p: Phase) -> bool {
    p is Ready || p is Countdown || p is Play || p is TimeUp
}

/// The phases a round can be paused in.
pub open spec fn is_pausable(p: Phase) -> bool {
    p is Ready || p is Countdown || p is Play
}

impl Phase {
    /// The phases the frame clock runs in.
    pub fn timed(self) -> (r: bool)
        ensures
            r == is_timed(self),
    {
        match self {
            Phase::Ready | Phase::Countdown | Phase::Play | Phase::TimeUp => true,
            _ => false,
        }
    }
}

/// Whether a pause request opens the pause card: only with no card up, in a live round.
pub fn may_pause(phase: Phase, covered: bool) -> (r: bool)
    ensures
        r == (!covered && is_pausable(phase)),
{
    !covered && match phase {
        Phase::Ready | Phase::Countdown | Phase::Play => true,
        _ => false,
    }
}

/// How the card showing was answered.
#[derive(Clone, Copy, Debug, PartialEq, Eq, Structural)]
pub enum Mark {
    Correct,
    Pass,
}

/// What a key does in Charades.
#[derive(Clone, Copy, Debug, PartialEq, Eq, Structural)]
pub enum KeyAction {
    /// Answer the card showing.
    Answer(Mark),
    /// Start counting in.
    Countdown,
    /// Ask for the pause card.
    Pause,
    /// Nothing.
    Ignore,
}

/// The key rules: while playing, Down, Enter or space score the card and Up or Backspace pass
/// it; when ready, Enter or space start the count; Escape asks for a pause in a live round;
/// nothing while a card is up.
pub open spec fn key_rule(phase: Phase, covered: bool, key: Seq<char>) -> KeyAction {
    if covered {
        KeyAction::Ignore
    } else if phase is Play && (key == "ArrowDown"@ || key == "Enter"@ || key == " "@) {
        KeyAction::Answer(Mark::Correct)
    } else if phase is Play && (key == "ArrowUp"@ || key == "Backspace"@) {
        KeyAction::Answer(Mark::Pass)
    } else if phase is Ready && (key == "Enter"@ || key == " "@) {
        KeyAction::Countdown
    } else if is_pausable(phase) && key == "Escape"@ {
        KeyAction::Pause
    } else {
        KeyAction::Ignore
    }
}

/// What `key` does in `phase`, `covered` when a card is up.
pub fn key_action(phase: Phase, covered: bool, key: &str) -> (a: KeyAction)
    ensures
        a == key_rule(phase, covered, key@),
{
    if covered {
        return KeyAction::Ignore;
    }
    let play = match phase {
        Phase::Play => true,
        _ => false,
    };
    let ready = match phase {
        Phase::Ready => true,
        _ => false,
    };
    let live = match phase {
        Phase::Ready | Phase::Countdown | Phase::Play => true,
        _ => false,
    };
    if play && (is_either(key, "ArrowDown", "Enter") || is_key(key, " ")) {
        KeyAction::Answer(Mark::Correct)
    } else if play && is_either(key, "ArrowUp", "Backspace") {
        KeyAction::Answer(Mark::Pass)
    } else if ready && is_either(key, "Enter", " ") {
        KeyAction::Countdown
    } else if live && is_key(key, "Escape") {
        KeyAction::Pause
    } else {
        KeyAction::Ignore
    }
}

/// Motion samples waiting for the frame clock; older ones are dropped.
pub const MOTION_QUEUE: usize = 64;

/// The queue after `sample` arrives: the oldest dropped once [`MOTION_QUEUE`] wait.
pub open spec fn queued<T>(q: Seq<T>, sample: T) -> Seq<T> {
    (if q.len() >= MOTION_QUEUE {
        q.drop_first()
    } else {
        q
    }).push(sample)
}

/// The queue after the samples `rs` arrive one by one, in order.
pub open spec fn queued_all<T>(q: Seq<T>, rs: Seq<T>) -> Seq<T>
    decreases rs.len(),
{
    if rs.len() == 0 {
        q
    } else {
        queued(queued_all(q, rs.drop_last()), rs.last())
    }
}

/// The newest `n` entries of `s`, in order (all of them when there are no more than `n`).
pub open spec fn newest<T>(s: Seq<T>, n: int) -> Seq<T> {
    if s.len() <= n {
        s
    } else {
        s.skip(s.len() - n)
    }
}

/// **The motion queue keeps the newest samples.** However many readings arrive before the
/// frame clock drains it, a queue within its bound holds exactly the newest [`MOTION_QUEUE`] of
/// what it held and what arrived, in arrival order, the oldest dropped first.
pub proof fn lemma_queue_keeps_the_newest<T>(q: Seq<T>, rs: Seq<T>)
    requires
        q.len() <= MOTION_QUEUE,
    ensures
        queued_all(q, rs) == newest(q + rs, MOTION_QUEUE as int),
        queued_all(q, rs).len() <= MOTION_QUEUE,
    decreases rs.len(),
{
    if rs.len() > 0 {
        let front = rs.drop_last();
        let x = rs.last();
        lemma_queue_keeps_the_newest(q, front);
        let all = q + front;
        let p = queued_all(q, front);
        assert(q + rs =~= all.push(x));
        let cap = MOTION_QUEUE as int;
        if all.len() < cap {
            assert(p =~= all);
        } else {
            assert(p.len() == cap);
            assert(p.drop_first().push(x) =~= newest(all.push(x), cap));
        }
    } else {
        assert(q + rs =~= q);
    }
}

/// The accelerometer's samples waiting for the frame clock, oldest first, and the newest one
/// seen (kept when the queue is taken).
pub struct Motion<T> {
    pub queue: Vec<T>,
    pub last: Option<T>,
}

impl<T: Copy> Motion<T> {
    /// Nothing heard yet.
    pub fn new() -> (m: Motion<T>)
        ensures
            m.queue@.len() == 0,
            m.last is None,
    {
        Motion { queue: Vec::new(), last: None }
    }

    /// A sample arrived: queue it, dropping the oldest once [`MOTION_QUEUE`] wait, and
    /// remember it as the newest. A queue within the bound stays within it.
    pub fn push(&mut self, sample: T)
        ensures
            final(self).queue@ == queued(old(self).queue@, sample),
            final(self).last == Some(sample),
            old(self).queue@.len() <= MOTION_QUEUE ==> final(self).queue@.len() <= MOTION_QUEUE,
    {
        if self.queue.len() >= MOTION_QUEUE {
            self.queue.remove(0);
        }
        self.queue.push(sample);
        self.last = Some(sample);
    }

    /// Hand the waiting samples to the frame clock, oldest first, leaving the queue empty.
    pub fn take(&mut self) -> (taken: Vec<T>)
        ensures
            taken@ == old(self).queue@,
            final(self).queue@.len() == 0,
            final(self).last == old(self).last,
    {
        let mut out: Vec<T> = Vec::new();
        std::mem::swap(&mut out, &mut self.queue);
        out
    }
}

} // verus!
