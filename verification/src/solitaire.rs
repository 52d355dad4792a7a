//! Solitaire's tallies: the rank labels on the cards, and the games, wins, streaks and best
//! scores kept per draw mode. The fastest time, a clock reading, is kept by the page.

use vstd::prelude::*;

verus! {

/// The label of rank `rank` (1 ace to 13 king), out-of-range ranks clamped to the ends.
pub open spec fn rank_text(rank: u8) -> Seq<char> {
    let r = if rank < 1 { 1 } else if rank > 13 { 13 } else { rank as int };
    if r == 1 {
        "A"@
    } else if r == 2 {
        "2"@
    } else if r == 3 {
        "3"@
    } else if r == 4 {
        "4"@
    } else if r == 5 {
        "5"@
    } else if r == 6 {
        "6"@
    } else if r == 7 {
        "7"@
    } else if r == 8 {
        "8"@
    } else if r == 9 {
        "9"@
    } else if r == 10 {
        "10"@
    } else if r == 11 {
        "J"@
    } else if r == 12 {
        "Q"@
    } else {
        "K"@
    }
}

/// The corner label of a card of rank `rank`.
pub fn rank_label(rank: u8) -> (s: &'static str)
    ensures
        s@ == rank_text(rank),
{
    let r: u8 = if rank < 1 {
        1
    } else if rank > 13 {
        13
    } else {
        rank
    };
    if r == 1 {
        "A"
    } else if r == 2 {
        "2"
    } else if r == 3 {
        "3"
    } else if r == 4 {
        "4"
    } else if r == 5 {
        "5"
    } else if r == 6 {
        "6"
    } else if r == 7 {
        "7"
    } else if r == 8 {
        "8"
    } else if r == 9 {
        "9"
    } else if r == 10 {
        "10"
    } else if r == 11 {
        "J"
    } else if r == 12 {
        "Q"
    } else {
        "K"
    }
}

/// Games, wins and records, per draw mode (0 draws one card, 1 draws three).
pub struct Stats {
    pub played: [u32; 2],
    pub won: [u32; 2],
    pub best_score: [i64; 2],
    pub streak: u32,
    pub best_streak: u32,
}

impl Stats {
    /// Nothing played yet.
    pub fn new() -> (s: Stats)
        ensures
            s.played == [0u32, 0u32] && s.won == [0u32, 0u32] && s.best_score == [0i64, 0i64],
            s.streak == 0 && s.best_streak == 0,
    {
        Stats { played: [0, 0], won: [0, 0], best_score: [0, 0], streak: 0, best_streak: 0 }
    }

    /// Count a win in mode `mode` that scored `score`: one more game and win, the streak
    /// extended, and the records kept.
    pub fn record_win(&mut self, mode: usize, score: i64)
        requires
            mode < 2,
            old(self).played[mode as int] < u32::MAX,
            old(self).won[mode as int] < u32::MAX,
            old(self).streak < u32::MAX,
        ensures
            final(self).played[mode as int] == old(self).played[mode as int] + 1,
            final(self).won[mode as int] == old(self).won[mode as int] + 1,
            final(self).streak == old(self).streak + 1,
            final(self).best_streak == if old(self).streak + 1 > old(self).best_streak {
                old(self).streak + 1
            } else {
                old(self).best_streak as int
            },
            final(self).best_score[mode as int] == if score > old(self).best_score[mode as int] {
                score
            } else {
                old(self).best_score[mode as int]
            },
            final(self).played[1 - mode] == old(self).played[1 - mode],
            final(self).won[1 - mode] == old(self).won[1 - mode],
            final(self).best_score[1 - mode] == old(self).best_score[1 - mode],
    {
        let p = self.played[mode] + 1;
        self.played[mode] = p;
        let w = self.won[mode] + 1;
        self.won[mode] = w;
        self.streak = self.streak + 1;
        if self.streak > self.best_streak {
            self.best_streak = self.streak;
        }
        if score > self.best_score[mode] {
            self.best_score[mode] = score;
        }
    }

    /// Count a game given up in mode `mode`: one more game, and the streak broken.
    pub fn record_loss(&mut self, mode: usize)
        requires
            mode < 2,
            old(self).played[mode as int] < u32::MAX,
        ensures
            final(self).played[mode as int] == old(self).played[mode as int] + 1,
            final(self).played[1 - mode] == old(self).played[1 - mode],
            final(self).streak == 0,
            final(self).won == old(self).won,
            final(self).best_score == old(self).best_score,
            final(self).best_streak == old(self).best_streak,
    {
        let p = self.played[mode] + 1;
        self.played[mode] = p;
        self.streak = 0;
    }
}

} // verus!
