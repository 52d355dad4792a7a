//! Breakout: the wall and the scoreboard. A wall of bricks, some armored on later levels and a
//! few carrying power-ups; breaking a brick scores its row's points, times the combo for the
//! primary ball; catching a power-up scores and may grant a life; losing the last ball costs a
//! life, and clearing the wall completes the level. The ball's flight, the paddle and the
//! effects are continuous and run in the page, which reports hits and catches here.

use vstd::prelude::*;
use crate::keys::is_key;

use crate::rng::{Rng, unit_steps, xorshift};

verus! {

pub const ROWS: usize = 8;
pub const COLS: usize = 10;
/// The wall's bricks, row-major.
pub const BRICKS: usize = 80;
/// Points per row (top rows are worth more).
pub const ROW_POINTS: [i64; 8] = [7, 7, 5, 5, 3, 3, 1, 1];
pub const CATCH_SCORE: i64 = 50;
pub const MAX_LIVES: i32 = 5;
pub const START_LIVES: i32 = 3;
pub const COMBO_CAP: i64 = 4;
/// The chance that a plain brick drops a power-up when it breaks (a quarter of the 20% a
/// power-up brick's share is tuned by), as the odds [`Rng::unit_below`] takes.
pub const STRAY_DROP_ODDS: u64 = 450359962737050;

#[derive(Clone, Copy, PartialEq, Eq, Debug, Structural)]
pub enum Power {
    Wide,
    Multi,
    Slow,
    ExtraLife,
    Smash,
}

pub const POWERS: [Power; 5] = [Power::Wide, Power::Multi, Power::Slow, Power::ExtraLife, Power::Smash];

impl Power {
    /// The badge letter on a falling power-up and its timer.
    pub fn letter(self) -> (s: &'static str)
        ensures
            s@ == (match self {
                Power::Wide => "W"@,
                Power::Multi => "M"@,
                Power::Slow => "S"@,
                Power::ExtraLife => "+1"@,
                Power::Smash => "★"@,
            }),
    {
        match self {
            Power::Wide => "W",
            Power::Multi => "M",
            Power::Slow => "S",
            Power::ExtraLife => "+1",
            Power::Smash => "★",
        }
    }
}

#[derive(Clone, Copy)]
pub struct Brick {
    pub hp: u8,
    pub max_hp: u8,
    pub power: Option<Power>,
}

impl Brick {
    pub fn alive(&self) -> (a: bool)
        ensures
            a == (self.hp > 0),
    {
        self.hp > 0
    }
}

/// The strength of a brick in row `row` on level `level`: higher levels sprinkle tougher bricks
/// along the top.
pub open spec fn hp_for(row: int, level: int) -> u8 {
    if level >= 4 && row == 0 {
        3
    } else if (level >= 3 && row < 2) || (level >= 2 && row == 0) {
        2
    } else {
        1
    }
}

pub fn brick_hp(row: usize, level: i32) -> (hp: u8)
    ensures
        hp == hp_for(row as int, level as int),
{
    if level >= 4 && row == 0 {
        3
    } else if (level >= 3 && row < 2) || (level >= 2 && row == 0) {
        2
    } else {
        1
    }
}

/// Draw distinct wall cells until `n` are chosen: each draw picks a cell in `0..80`, kept
/// unless already chosen. At most `fuel` draws (never the limit in play: the odds of one
/// repeat are at most 3 in 80). The cells chosen, and the generator after.
pub open spec fn pick_cells(state: u64, n: int, chosen: Seq<usize>, fuel: nat) -> (Seq<usize>, u64)
    decreases fuel,
{
    if chosen.len() >= n || fuel == 0 {
        (chosen, state)
    } else {
        let x = xorshift(state);
        let c = (x % 80) as usize;
        if chosen.contains(c) {
            pick_cells(x, n, chosen, (fuel - 1) as nat)
        } else {
            pick_cells(x, n, chosen.push(c), (fuel - 1) as nat)
        }
    }
}

/// The power-ups the bricks from `i` on carry, given the chosen cells: walking the wall in
/// order, each chosen cell draws one of the five kinds. The carried kinds and the generator
/// after.
pub open spec fn deal_powers(cells: Seq<usize>, i: int, state: u64) -> (Seq<Option<Power>>, u64)
    decreases 80 - i,
{
    if i >= 80 {
        (seq![], state)
    } else if cells.contains(i as usize) {
        let x = xorshift(state);
        let rest = deal_powers(cells, i + 1, x);
        (seq![Some(POWERS[(x % 5) as int])] + rest.0, rest.1)
    } else {
        let rest = deal_powers(cells, i + 1, state);
        (seq![None] + rest.0, rest.1)
    }
}

/// The draw budget of [`pick_cells`].
pub open spec fn draw_budget() -> nat {
    0xFFFF_FFFF_FFFF_FFFF
}

/// What a fresh wall on `level` is, drawn from the generator at `state`: the power-up cells,
/// the kinds they carry, and the generator after.
pub open spec fn wall_plan(level: int, state: u64) -> (Seq<usize>, Seq<Option<Power>>, u64) {
    let x = xorshift(state);
    let n = 2 + (x % 3) as int;
    let cells = pick_cells(x, n, seq![], draw_budget());
    let powers = deal_powers(cells.0, 0, cells.1);
    (cells.0, powers.0, powers.1)
}

/// `bricks` is the wall for `level` carrying `powers`: every brick at its row's strength for
/// the level.
pub open spec fn wall_is(bricks: Seq<Brick>, level: int, powers: Seq<Option<Power>>) -> bool {
    &&& bricks.len() == 80
    &&& forall|i: int|
        0 <= i < 80 ==> {
            &&& (#[trigger] bricks[i]).hp == hp_for(i / 10, level)
            &&& bricks[i].max_hp == bricks[i].hp
            &&& bricks[i].power == powers[i]
        }
}

/// What breaking or denting a brick came to, for the page's effects.
#[derive(Clone, Copy, PartialEq, Eq, Debug, Structural)]
pub enum Hit {
    /// The brick lost a point of armor: one point scored.
    Dented,
    /// The brick broke: what it scored, the combo multiplier it scored at (1 = no combo), and
    /// the power-up it dropped, if any.
    Broken { earned: i64, multiplier: i64, drop: Option<Power> },
}

/// The wall, the scoreboard and the round's flags.
pub struct Board {
    pub bricks: Vec<Brick>,
    pub score: i64,
    pub best: i64,
    pub lives: i32,
    pub level: i32,
    /// Consecutive breaks by the primary ball; the page lets it lapse after a pause.
    pub combo: i64,
    pub game_over: bool,
    pub level_complete: bool,
    pub launched: bool,
    pub rng: Rng,
}

/// The durable part of a breakout save: which bricks stand, and progress.
pub struct WallSave {
    pub alive: Vec<bool>,
    pub score: i64,
    pub lives: i32,
    pub level: i32,
    pub game_over: bool,
    pub level_complete: bool,
    pub launched: bool,
}

/// Whether the brick at `i` still stands.
pub open spec fn standing(bricks: Seq<Brick>, i: int) -> bool {
    bricks[i].hp > 0
}

pub open spec fn all_down(bricks: Seq<Brick>) -> bool {
    forall|i: int| 0 <= i < bricks.len() ==> !standing(bricks, i)
}

/// `s` is what a save of `b` holds: which bricks stand, and progress.
pub open spec fn saved(b: Board, s: WallSave) -> bool {
    &&& s.alive@.len() == b.bricks@.len()
    &&& forall|i: int| 0 <= i < b.bricks@.len() ==> s.alive@[i] == standing(b.bricks@, i)
    &&& s.score == b.score
    &&& s.lives == b.lives
    &&& s.level == b.level
    &&& s.game_over == b.game_over
    &&& s.level_complete == b.level_complete
    &&& s.launched == b.launched
}

/// The level a save restores to: its own, at least the first.
pub open spec fn saved_level(s: WallSave) -> i32 {
    if s.level > 1 {
        s.level
    } else {
        1i32
    }
}

/// `b` is `a` rebuilt from a well-sized save `s`: the level's wall drawn afresh from `a`'s
/// generator with the fallen bricks knocked down, the progress back (lives kept in range), the
/// combo over.
pub open spec fn restored(a: Board, s: WallSave, b: Board) -> bool {
    let level = saved_level(s);
    let plan = wall_plan(level as int, a.rng.state);
    &&& b.score == s.score
    &&& b.lives == if s.lives < 0 {
        0
    } else if s.lives > MAX_LIVES {
        MAX_LIVES
    } else {
        s.lives
    }
    &&& b.level == level
    &&& b.game_over == s.game_over
    &&& b.level_complete == s.level_complete
    &&& b.launched == s.launched
    &&& b.combo == 0
    &&& b.best == a.best
    &&& b.rng.state == plan.2
    &&& b.bricks@.len() == 80
    &&& forall|i: int|
        0 <= i < 80 ==> {
            &&& (#[trigger] b.bricks@[i]).hp == if s.alive@[i] {
                hp_for(i / 10, level as int)
            } else {
                0
            }
            &&& b.bricks@[i].max_hp == hp_for(i / 10, level as int)
            &&& b.bricks@[i].power == plan.1[i]
        }
}

/// Restoring a save keeps the wall and progress: the same bricks stand (at full strength), and
/// the score, lives, level and the round's flags come back, for a board of the full wall on a
/// level from the first on with its lives in range.
pub proof fn lemma_save_then_restore_keeps_the_wall(g: Board, s: WallSave, t0: Board, t1: Board)
    requires
        g.bricks@.len() == 80,
        g.level >= 1,
        0 <= g.lives <= MAX_LIVES,
        saved(g, s),
        restored(t0, s, t1),
    ensures
        t1.bricks@.len() == 80,
        forall|i: int| 0 <= i < 80 ==> standing(t1.bricks@, i) == standing(g.bricks@, i),
        t1.score == g.score,
        t1.lives == g.lives,
        t1.level == g.level,
        t1.game_over == g.game_over,
        t1.level_complete == g.level_complete,
        t1.launched == g.launched,
{
    assert forall|i: int| 0 <= i < 80 implies standing(t1.bricks@, i) == standing(g.bricks@, i) by {
        assert(t1.bricks@[i].hp == if s.alive@[i] { hp_for(i / 10, g.level as int) } else { 0 });
    }
}

/// How a physics step ended, for the page's sounds, haptics and cards.
#[derive(Clone, Copy, PartialEq, Eq, Debug, Structural)]
pub enum StepOutcome {
    /// The ball is not in play: nothing happened.
    Idle,
    /// Play goes on.
    Continue,
    /// The primary ball fell but an extra takes its place; play goes on.
    Promoted,
    /// The last ball fell: a life went and the ball waits on the paddle.
    LifeLost,
    /// The last ball fell with the last life.
    GameOver,
    /// Every brick is down.
    LevelComplete,
}

/// The outcome of a physics step on board `b` in which the primary ball fell (`primary_lost`)
/// and an extra ball is still in flight (`extras_left`).
pub open spec fn step_outcome(b: Board, primary_lost: bool, extras_left: bool) -> StepOutcome {
    if !(b.launched && !b.game_over && !b.level_complete) {
        StepOutcome::Idle
    } else if primary_lost && !extras_left {
        if b.lives - 1 <= 0 {
            StepOutcome::GameOver
        } else {
            StepOutcome::LifeLost
        }
    } else if all_down(b.bricks@) {
        StepOutcome::LevelComplete
    } else if primary_lost {
        StepOutcome::Promoted
    } else {
        StepOutcome::Continue
    }
}

/// The cards the Breakout page can show over the board.
#[derive(Clone, Copy, PartialEq, Eq, Debug, Structural)]
pub enum Overlay {
    /// No card: the board is in view.
    Clear,
    Pause,
    LevelComplete,
    GameOver,
    Settings,
    Instructions,
}

/// The card the page opens on: the rules the first time; a game restored mid-flight waits
/// behind the pause menu (the player was not holding the paddle when it left); a finished game
/// or level shows its card; otherwise none.
pub open spec fn opening_card(instructions_shown: bool, restored: bool, b: Board) -> Overlay {
    if !instructions_shown {
        Overlay::Instructions
    } else if restored && b.launched && !b.game_over && !b.level_complete {
        Overlay::Pause
    } else if b.game_over {
        Overlay::GameOver
    } else if b.level_complete {
        Overlay::LevelComplete
    } else {
        Overlay::Clear
    }
}

/// The card to open the page on, `restored` when a save was read into `b`.
pub fn opening_overlay(instructions_shown: bool, restored: bool, b: &Board) -> (o: Overlay)
    ensures
        o == opening_card(instructions_shown, restored, *b),
{
    if !instructions_shown {
        Overlay::Instructions
    } else if restored && b.launched && !b.game_over && !b.level_complete {
        Overlay::Pause
    } else if b.game_over {
        Overlay::GameOver
    } else if b.level_complete {
        Overlay::LevelComplete
    } else {
        Overlay::Clear
    }
}

/// The points a break earns in row `row`.
pub open spec fn row_points(row: int) -> i64 {
    ROW_POINTS[if row < 7 {
        row
    } else {
        7
    }]
}

/// The score fits where every break, dent and catch of a long game can still be added.
pub open spec fn score_room(score: i64) -> bool {
    i64::MIN + 100 <= score <= i64::MAX - 100
}


/// How many bricks have fallen.
pub open spec fn fallen(bricks: Seq<Brick>) -> int
    decreases bricks.len(),
{
    if bricks.len() == 0 {
        0
    } else {
        fallen(bricks.drop_last()) + if bricks.last().hp > 0 {
            0int
        } else {
            1int
        }
    }
}

/// Whether `cells` lists `c`.
fn has_cell(cells: &Vec<usize>, c: usize) -> (b: bool)
    ensures
        b == cells@.contains(c),
{
    let mut k: usize = 0;
    while k < cells.len()
        invariant
            0 <= k <= cells@.len(),
            forall|i: int| 0 <= i < k ==> cells@[i] != c,
        decreases cells.len() - k,
    {
        if cells[k] == c {
            return true;
        }
        k += 1;
    }
    false
}

/// The wall for `level`, drawn from `rng` (see [`wall_plan`]).
pub fn build_wall(rng: &mut Rng, level: i32) -> (bricks: Vec<Brick>)
    ensures
        wall_is(bricks@, level as int, wall_plan(level as int, old(rng).state).1),
        final(rng).state == wall_plan(level as int, old(rng).state).2,
{
    let ghost s0 = rng.state;
    let n: usize = 2 + rng.below(3);
    let ghost x0 = rng.state;
    let mut cells: Vec<usize> = Vec::new();
    let mut fuel: u64 = 0xFFFF_FFFF_FFFF_FFFF;
    assert(cells@ =~= seq![]);
    while cells.len() < n && fuel > 0
        invariant
            pick_cells(rng.state, n as int, cells@, fuel as nat) == pick_cells(x0, n as int, seq![], draw_budget()),
        decreases fuel,
    {
        let c: usize = rng.below(BRICKS);
        if !has_cell(&cells, c) {
            cells.push(c);
        }
        fuel -= 1;
    }
    let ghost s1 = rng.state;
    let mut bricks: Vec<Brick> = Vec::new();
    let ghost mut dealt: Seq<Option<Power>> = seq![];
    let mut i: usize = 0;
    while i < BRICKS
        invariant
            0 <= i <= 80,
            bricks@.len() == i,
            dealt.len() == i,
            deal_powers(cells@, 0, s1) == (dealt + deal_powers(cells@, i as int, rng.state).0, deal_powers(
                cells@,
                i as int,
                rng.state,
            ).1),
            forall|j: int|
                0 <= j < i ==> {
                    &&& (#[trigger] bricks@[j]).hp == hp_for(j / 10, level as int)
                    &&& bricks@[j].max_hp == bricks@[j].hp
                    &&& bricks@[j].power == dealt[j]
                },
        decreases BRICKS - i,
    {
        let hp: u8 = brick_hp(i / COLS, level);
        let ghost before = rng.state;
        let power: Option<Power> = if has_cell(&cells, i) {
            let k: usize = rng.below(5);
            Some(POWERS[k])
        } else {
            None
        };
        proof {
            let rest = deal_powers(cells@, i + 1, rng.state);
            assert(deal_powers(cells@, i as int, before).0 == seq![power] + rest.0);
            assert(dealt.push(power) + rest.0 =~= dealt + (seq![power] + rest.0));
            dealt = dealt.push(power);
        }
        bricks.push(Brick { hp, max_hp: hp, power });
        i += 1;
    }
    assert(deal_powers(cells@, 80, rng.state) == (Seq::<Option<Power>>::empty(), rng.state));
    assert(dealt + Seq::<Option<Power>>::empty() =~= dealt);
    bricks
}


/// What breaking a brick that carried `power` drops, and the generator after: the carried
/// power-up, or else by a small chance a stray one of the five.
pub open spec fn drop_of(power: Option<Power>, state: u64) -> (Option<Power>, u64) {
    match power {
        Some(k) => (Some(k), state),
        None => {
            let x = xorshift(state);
            if unit_steps(x) < STRAY_DROP_ODDS {
                let y = xorshift(x);
                (Some(POWERS[(y % 5) as int]), y)
            } else {
                (None, x)
            }
        },
    }
}

/// The combo multiplier for a break by the primary ball at combo `combo` (before the break).
pub open spec fn multiplier_for(combo: i64, primary: bool) -> i64 {
    if primary {
        if combo + 1 < COMBO_CAP {
            (combo + 1) as i64
        } else {
            COMBO_CAP
        }
    } else {
        1
    }
}

/// **Only the primary ball builds a combo.** A brick broken by an extra ball earns exactly its
/// row's points (multiplier 1) whatever the combo; one broken by the primary ball earns them
/// times one more than the combo so far, at most four times; and no break earns less than the
/// row's points.
pub proof fn lemma_combo_multiplier(combo: i64, row: int)
    requires
        0 <= combo,
    ensures
        multiplier_for(combo, false) == 1,
        row_points(row) * multiplier_for(combo, false) == row_points(row),
        multiplier_for(combo, true) == if combo + 1 < 4 { combo + 1 } else { 4 },
        1 <= multiplier_for(combo, true) <= 4,
        forall|c: i64| 0 <= c < combo ==> multiplier_for(c, true) <= multiplier_for(combo, true),
{
}

/// Everything but the bricks, score, combo and generator kept.
pub open spec fn keeps_round(a: Board, b: Board) -> bool {
    &&& a.best == b.best
    &&& a.lives == b.lives
    &&& a.level == b.level
    &&& a.game_over == b.game_over
    &&& a.level_complete == b.level_complete
    &&& a.launched == b.launched
}

impl Board {
    /// A new game's board, its generator seeded with `seed` (gamekit's seed).
    pub fn new(seed: u64) -> (b: Board)
        ensures
            b.score == 0 && b.best == 0 && b.lives == START_LIVES && b.level == 1,
            !b.game_over && !b.level_complete && !b.launched && b.combo == 0,
            wall_is(b.bricks@, 1, wall_plan(1, seed).1),
            b.rng.state == wall_plan(1, seed).2,
    {
        let mut b = Board {
            bricks: Vec::new(),
            score: 0,
            best: 0,
            lives: START_LIVES,
            level: 1,
            combo: 0,
            game_over: false,
            level_complete: false,
            launched: false,
            rng: Rng::new(seed),
        };
        b.new_game();
        b
    }

    /// Start over: no score, three lives, level 1, a fresh wall, the ball waiting.
    pub fn new_game(&mut self)
        ensures
            final(self).score == 0 && final(self).lives == START_LIVES && final(self).level == 1,
            !final(self).game_over && !final(self).level_complete && !final(self).launched,
            final(self).combo == 0,
            final(self).best == old(self).best,
            wall_is(final(self).bricks@, 1, wall_plan(1, old(self).rng.state).1),
            final(self).rng.state == wall_plan(1, old(self).rng.state).2,
    {
        self.score = 0;
        self.lives = START_LIVES;
        self.level = 1;
        self.game_over = false;
        self.level_complete = false;
        self.combo = 0;
        self.bricks = build_wall(&mut self.rng, self.level);
        self.launched = false;
    }

    /// Move on to `level`: a fresh wall, the ball waiting, the combo reset.
    pub fn start_level(&mut self, level: i32)
        ensures
            final(self).level == level,
            !final(self).level_complete && !final(self).launched && final(self).combo == 0,
            wall_is(final(self).bricks@, level as int, wall_plan(level as int, old(self).rng.state).1),
            final(self).rng.state == wall_plan(level as int, old(self).rng.state).2,
            final(self).score == old(self).score,
            final(self).best == old(self).best,
            final(self).lives == old(self).lives,
            final(self).game_over == old(self).game_over,
    {
        self.level = level;
        self.level_complete = false;
        self.combo = 0;
        self.bricks = build_wall(&mut self.rng, level);
        self.launched = false;
    }

    /// Whether the ball is in play.
    pub fn live(&self) -> (r: bool)
        ensures
            r == (self.launched && !self.game_over && !self.level_complete),
    {
        self.launched && !self.game_over && !self.level_complete
    }

    /// Send the waiting ball off. The draw returned sets its angle (the page turns it into a
    /// direction). Nothing once it is in flight, or with the game or the level over.
    pub fn launch(&mut self) -> (draw: Option<u64>)
        ensures
            (old(self).launched || old(self).game_over || old(self).level_complete) ==> draw is None
                && *final(self) == *old(self),
            !(old(self).launched || old(self).game_over || old(self).level_complete) ==> {
                &&& draw == Some(xorshift(old(self).rng.state))
                &&& final(self).rng.state == xorshift(old(self).rng.state)
                &&& final(self).launched
                &&& final(self).bricks == old(self).bricks
                &&& final(self).score == old(self).score
                &&& final(self).combo == old(self).combo
                &&& final(self).best == old(self).best
                &&& final(self).lives == old(self).lives
                &&& final(self).level == old(self).level
                &&& !final(self).game_over
                &&& !final(self).level_complete
            },
    {
        if self.launched || self.game_over || self.level_complete {
            return None;
        }
        self.launched = true;
        Some(self.rng.next())
    }

    /// How many bricks have fallen (the ball speeds up with each).
    pub fn cleared(&self) -> (n: usize)
        ensures
            n == fallen(self.bricks@),
    {
        let mut n: usize = 0;
        let mut i: usize = 0;
        while i < self.bricks.len()
            invariant
                0 <= i <= self.bricks@.len(),
                n == fallen(self.bricks@.take(i as int)),
                n <= i,
            decreases self.bricks.len() - i,
        {
            assert(self.bricks@.take(i + 1).drop_last() =~= self.bricks@.take(i as int));
            if !self.bricks[i].alive() {
                n += 1;
            }
            i += 1;
        }
        assert(self.bricks@.take(self.bricks@.len() as int) =~= self.bricks@);
        n
    }

    /// Knock brick `i` down one point of armor. A break scores its row's points (times the
    /// combo, capped at four, for the primary ball, whose combo it extends) and drops what it
    /// carried, or by a small chance a stray power-up; a dent scores one.
    pub fn on_brick_hit(&mut self, i: usize, primary: bool) -> (hit: Hit)
        requires
            i < old(self).bricks@.len(),
            old(self).score < i64::MAX,
            old(self).combo < i64::MAX,
            i64::MIN <= row_points(i as int / 10) * multiplier_for(old(self).combo, primary),
            i64::MIN <= old(self).score + row_points(i as int / 10) * multiplier_for(old(self).combo, primary)
                <= i64::MAX,
        ensures
            ({
                let b = old(self).bricks@[i as int];
                let hp = if b.hp > 0 {
                    (b.hp - 1) as u8
                } else {
                    0u8
                };
                let broke = hp == 0;
                let dropped = drop_of(b.power, old(self).rng.state);
                &&& final(self).bricks@ == old(self).bricks@.update(
                    i as int,
                    Brick { hp, max_hp: b.max_hp, power: if broke { None } else { b.power } },
                )
                &&& broke ==> {
                    let mult = multiplier_for(old(self).combo, primary);
                    let earned = (row_points(i as int / 10) * mult) as i64;
                    &&& hit == Hit::Broken { earned, multiplier: mult, drop: dropped.0 }
                    &&& final(self).score == old(self).score + earned
                    &&& final(self).combo == if primary {
                        old(self).combo + 1
                    } else {
                        old(self).combo as int
                    }
                    &&& final(self).rng.state == dropped.1
                }
                &&& !broke ==> {
                    &&& hit == Hit::Dented
                    &&& final(self).score == old(self).score + 1
                    &&& final(self).combo == old(self).combo
                    &&& final(self).rng == old(self).rng
                }
                &&& broke && !primary ==> {
                    &&& hit matches Hit::Broken { earned, multiplier, .. } && multiplier == 1 && earned
                        == row_points(i as int / 10)
                    &&& final(self).score == old(self).score + row_points(i as int / 10)
                    &&& final(self).combo == old(self).combo
                }
                &&& broke && primary ==> (hit matches Hit::Broken { multiplier, .. } && multiplier == if old(
                    self,
                ).combo + 1 < 4 {
                    old(self).combo + 1
                } else {
                    4
                })
            }),
            keeps_round(*final(self), *old(self)),
    {
        let row: usize = i / COLS;
        let mut b: Brick = self.bricks[i];
        b.hp = if b.hp > 0 {
            b.hp - 1
        } else {
            0
        };
        if b.hp == 0 {
            let multiplier: i64 = if primary {
                self.combo = self.combo + 1;
                if self.combo < COMBO_CAP {
                    self.combo
                } else {
                    COMBO_CAP
                }
            } else {
                1
            };
            let points: i64 = ROW_POINTS[if row < 7 {
                row
            } else {
                7
            }];
            assert(points == row_points(i as int / 10));
            assert(multiplier == multiplier_for(old(self).combo, primary));
            assert(1 <= points <= 7 && multiplier <= 4);
            assert(points * multiplier <= 28) by (nonlinear_arith)
                requires
                    1 <= points <= 7,
                    multiplier <= 4,
            ;
            let earned: i64 = points * multiplier;
            self.score = self.score + earned;
            let carried: Option<Power> = b.power.take();
            self.bricks.set(i, b);
            let drop: Option<Power> = match carried {
                Some(k) => Some(k),
                None => {
                    if self.rng.unit_below(STRAY_DROP_ODDS) {
                        let k: usize = self.rng.below(5);
                        Some(POWERS[k])
                    } else {
                        None
                    }
                },
            };
            Hit::Broken { earned, multiplier, drop }
        } else {
            self.bricks.set(i, b);
            self.score = self.score + 1;
            Hit::Dented
        }
    }

    /// A smash ball flattens the brick it touches whatever its armor.
    pub fn smash_brick(&mut self, i: usize, primary: bool) -> (hit: Hit)
        requires
            i < old(self).bricks@.len(),
            old(self).score < i64::MAX,
            old(self).combo < i64::MAX,
            i64::MIN <= row_points(i as int / 10) * multiplier_for(old(self).combo, primary),
            i64::MIN <= old(self).score + row_points(i as int / 10) * multiplier_for(old(self).combo, primary)
                <= i64::MAX,
        ensures
            ({
                let b = old(self).bricks@[i as int];
                let dropped = drop_of(b.power, old(self).rng.state);
                let mult = multiplier_for(old(self).combo, primary);
                let earned = (row_points(i as int / 10) * mult) as i64;
                &&& final(self).bricks@ == old(self).bricks@.update(
                    i as int,
                    Brick { hp: 0, max_hp: b.max_hp, power: None },
                )
                &&& hit == Hit::Broken { earned, multiplier: mult, drop: dropped.0 }
                &&& final(self).score == old(self).score + earned
                &&& final(self).combo == if primary {
                    old(self).combo + 1
                } else {
                    old(self).combo as int
                }
                &&& final(self).rng.state == dropped.1
            }),
            keeps_round(*final(self), *old(self)),
    {
        let mut b: Brick = self.bricks[i];
        b.hp = 1;
        self.bricks.set(i, b);
        let hit = self.on_brick_hit(i, primary);
        assert(self.bricks@ =~= old(self).bricks@.update(
            i as int,
            Brick { hp: 0, max_hp: old(self).bricks@[i as int].max_hp, power: None },
        ));
        hit
    }

    /// A caught power-up scores; an extra life is granted up to the cap.
    pub fn catch_power(&mut self, kind: Power)
        requires
            score_room(old(self).score),
        ensures
            final(self).score == old(self).score + CATCH_SCORE,
            final(self).lives == if kind == Power::ExtraLife {
                if old(self).lives + 1 < MAX_LIVES {
                    (old(self).lives + 1) as i32
                } else {
                    MAX_LIVES
                }
            } else {
                old(self).lives
            },
            final(self).bricks == old(self).bricks,
            final(self).combo == old(self).combo,
            final(self).rng == old(self).rng,
            final(self).best == old(self).best,
            final(self).level == old(self).level,
            final(self).game_over == old(self).game_over,
            final(self).level_complete == old(self).level_complete,
            final(self).launched == old(self).launched,
    {
        self.score = self.score + CATCH_SCORE;
        if kind == Power::ExtraLife {
            self.lives = if self.lives < MAX_LIVES - 1 {
                self.lives + 1
            } else {
                MAX_LIVES
            };
        }
    }

    /// Keep the score as the best if it beats it; whether it did.
    pub fn record_best(&mut self) -> (improved: bool)
        ensures
            improved == (old(self).score > old(self).best),
            final(self).best == if improved {
                old(self).score
            } else {
                old(self).best
            },
            final(self).bricks == old(self).bricks,
            final(self).score == old(self).score,
            final(self).lives == old(self).lives,
            final(self).level == old(self).level,
            final(self).combo == old(self).combo,
            final(self).game_over == old(self).game_over,
            final(self).level_complete == old(self).level_complete,
            final(self).launched == old(self).launched,
            final(self).rng == old(self).rng,
    {
        if self.score > self.best {
            self.best = self.score;
            true
        } else {
            false
        }
    }

    /// The last ball fell: a life goes, and with the last one the game (the best recorded);
    /// otherwise the ball waits on the paddle again. Whether the game is over.
    pub fn lose_ball(&mut self) -> (over: bool)
        requires
            old(self).lives > i32::MIN,
        ensures
            final(self).lives == old(self).lives - 1,
            final(self).combo == 0,
            over == (final(self).lives <= 0),
            over ==> final(self).game_over && final(self).best == if old(self).score > old(self).best {
                old(self).score
            } else {
                old(self).best
            } && final(self).launched == old(self).launched,
            !over ==> final(self).game_over == old(self).game_over && final(self).best == old(self).best
                && !final(self).launched,
            final(self).bricks == old(self).bricks,
            final(self).score == old(self).score,
            final(self).level == old(self).level,
            final(self).level_complete == old(self).level_complete,
            final(self).rng == old(self).rng,
    {
        self.lives = self.lives - 1;
        self.combo = 0;
        if self.lives <= 0 {
            self.game_over = true;
            self.record_best();
            true
        } else {
            self.launched = false;
            false
        }
    }

    /// With every brick down the level is complete (the best recorded, the combo over).
    /// Whether it is.
    pub fn complete_if_cleared(&mut self) -> (done: bool)
        ensures
            done == all_down(old(self).bricks@),
            done ==> final(self).level_complete && final(self).combo == 0 && final(self).best == if old(self).score > old(self).best {
                old(self).score
            } else {
                old(self).best
            },
            !done ==> *final(self) == *old(self),
            final(self).bricks == old(self).bricks,
            final(self).score == old(self).score,
            final(self).lives == old(self).lives,
            final(self).level == old(self).level,
            final(self).game_over == old(self).game_over,
            final(self).launched == old(self).launched,
            final(self).rng == old(self).rng,
    {
        let mut i: usize = 0;
        while i < self.bricks.len()
            invariant
                0 <= i <= self.bricks@.len(),
                forall|j: int| 0 <= j < i ==> !standing(self.bricks@, j),
            decreases self.bricks.len() - i,
        {
            if self.bricks[i].alive() {
                assert(standing(self.bricks@, i as int));
                return false;
            }
            i += 1;
        }
        self.level_complete = true;
        self.record_best();
        self.combo = 0;
        true
    }

    /// The combo lapsed.
    pub fn end_combo(&mut self)
        ensures
            final(self).combo == 0,
            final(self).bricks == old(self).bricks,
            final(self).score == old(self).score,
            keeps_round(*final(self), *old(self)),
            final(self).rng == old(self).rng,
    {
        self.combo = 0;
    }

    /// The decisions that close a physics step, from what the step saw: whether the primary
    /// ball fell and whether an extra ball is still in flight. Nothing while the ball is not in
    /// play. A fallen primary with no extra costs a life (and with the last one the game), and
    /// the step ends there; with an extra left the page promotes one in its place. Then, with
    /// every brick down, the level is complete.
    pub fn end_of_step(&mut self, primary_lost: bool, extras_left: bool) -> (o: StepOutcome)
        requires
            old(self).lives > i32::MIN,
        ensures
            o == step_outcome(*old(self), primary_lost, extras_left),
            o is Idle ==> *final(self) == *old(self),
            (o is LifeLost || o is GameOver) ==> {
                &&& final(self).lives == old(self).lives - 1
                &&& final(self).combo == 0
                &&& final(self).game_over == (o is GameOver)
                &&& final(self).launched == (o is GameOver)
                &&& final(self).best == if o is GameOver && old(self).score > old(self).best {
                    old(self).score
                } else {
                    old(self).best
                }
                &&& final(self).bricks == old(self).bricks
                &&& final(self).score == old(self).score
                &&& final(self).level == old(self).level
                &&& !final(self).level_complete
                &&& final(self).rng == old(self).rng
            },
            o is LevelComplete ==> {
                &&& final(self).level_complete
                &&& final(self).combo == 0
                &&& final(self).best == if old(self).score > old(self).best {
                    old(self).score
                } else {
                    old(self).best
                }
                &&& final(self).bricks == old(self).bricks
                &&& final(self).score == old(self).score
                &&& final(self).lives == old(self).lives
                &&& final(self).level == old(self).level
                &&& final(self).launched == old(self).launched
                &&& !final(self).game_over
                &&& final(self).rng == old(self).rng
            },
            (o is Continue || o is Promoted) ==> *final(self) == *old(self),
    {
        if !self.live() {
            return StepOutcome::Idle;
        }
        if primary_lost && !extras_left {
            if self.lose_ball() {
                return StepOutcome::GameOver;
            }
            return StepOutcome::LifeLost;
        }
        if self.complete_if_cleared() {
            return StepOutcome::LevelComplete;
        }
        if primary_lost {
            StepOutcome::Promoted
        } else {
            StepOutcome::Continue
        }
    }

    /// The durable part of the round: which bricks stand, and progress.
    pub fn save(&self) -> (s: WallSave)
        ensures
            saved(*self, s),
    {
        let mut alive: Vec<bool> = Vec::new();
        let mut i: usize = 0;
        while i < self.bricks.len()
            invariant
                0 <= i <= self.bricks@.len(),
                alive@.len() == i,
                forall|j: int| 0 <= j < i ==> alive@[j] == standing(self.bricks@, j),
            decreases self.bricks.len() - i,
        {
            alive.push(self.bricks[i].alive());
            i += 1;
        }
        WallSave {
            alive,
            score: self.score,
            lives: self.lives,
            level: self.level,
            game_over: self.game_over,
            level_complete: self.level_complete,
            launched: self.launched,
        }
    }

    /// Rebuild from a snapshot: the wall's survivors at full strength (the level's wall drawn
    /// afresh, the fallen knocked down), the progress back. A snapshot of the wrong size is
    /// ignored. Whether it was applied.
    pub fn apply_save(&mut self, s: WallSave) -> (applied: bool)
        ensures
            applied == (s.alive@.len() == 80),
            !applied ==> *final(self) == *old(self),
            applied ==> restored(*old(self), s, *final(self)),
    {
        if s.alive.len() != BRICKS {
            return false;
        }
        self.score = s.score;
        self.lives = if s.lives < 0 {
            0
        } else if s.lives > MAX_LIVES {
            MAX_LIVES
        } else {
            s.lives
        };
        self.level = if s.level > 1 {
            s.level
        } else {
            1
        };
        self.game_over = s.game_over;
        self.level_complete = s.level_complete;
        self.launched = s.launched;
        self.combo = 0;
        let ghost state0 = self.rng.state;
        self.bricks = build_wall(&mut self.rng, self.level);
        let ghost built = self.bricks@;
        let ghost level = self.level;
        let ghost pre = *self;
        let mut i: usize = 0;
        while i < BRICKS
            invariant
                0 <= i <= 80,
                wall_is(built, level as int, wall_plan(level as int, state0).1),
                self.level == level,
                self.rng.state == wall_plan(level as int, state0).2,
                self.score == pre.score && self.lives == pre.lives && self.game_over == pre.game_over
                    && self.level_complete == pre.level_complete && self.launched == pre.launched
                    && self.combo == pre.combo && self.best == pre.best && self.rng == pre.rng,
                s.alive@.len() == 80,
                self.bricks@.len() == 80,
                built.len() == 80,
                forall|j: int|
                    0 <= j < 80 ==> {
                        &&& (#[trigger] self.bricks@[j]).hp == if j < i && !s.alive@[j] {
                            0
                        } else {
                            built[j].hp
                        }
                        &&& self.bricks@[j].max_hp == built[j].max_hp
                        &&& self.bricks@[j].power == built[j].power
                    },
            decreases BRICKS - i,
        {
            if !s.alive[i] {
                let mut b: Brick = self.bricks[i];
                b.hp = 0;
                self.bricks.set(i, b);
            }
            i += 1;
        }
        true
    }
}

/// **A fresh wall's power-ups sit on distinct bricks, at most four of them.** Whatever the
/// generator, the cells the draws pick are distinct squares of the wall, no more than asked.
pub proof fn lemma_power_cells_distinct(state: u64, n: int, chosen: Seq<usize>, fuel: nat)
    requires
        chosen.no_duplicates(),
        forall|j: int| 0 <= j < chosen.len() ==> chosen[j] < 80,
        chosen.len() <= n || n < 0,
    ensures
        pick_cells(state, n, chosen, fuel).0.no_duplicates(),
        forall|j: int|
            0 <= j < pick_cells(state, n, chosen, fuel).0.len() ==> pick_cells(state, n, chosen, fuel).0[j]
                < 80,
        pick_cells(state, n, chosen, fuel).0.len() <= if n > chosen.len() {
            n
        } else {
            chosen.len() as int
        },
    decreases fuel,
{
    if chosen.len() >= n || fuel == 0 {
    } else {
        let x = xorshift(state);
        let c = (x % 80) as usize;
        if chosen.contains(c) {
            lemma_power_cells_distinct(x, n, chosen, (fuel - 1) as nat);
        } else {
            let next = chosen.push(c);
            assert forall|a: int, b: int| 0 <= a < next.len() && 0 <= b < next.len() && a != b implies next[a] != next[b] by {
                if a == chosen.len() as int {
                    assert(next[a] == c && next[b] == chosen[b]);
                } else if b == chosen.len() as int {
                    assert(next[b] == c && next[a] == chosen[a]);
                } else {
                    assert(next[a] == chosen[a] && next[b] == chosen[b]);
                }
            }
            lemma_power_cells_distinct(x, n, next, (fuel - 1) as nat);
        }
    }
}

} // verus!

verus! {

/// What the arrow keys do in Breakout.
#[derive(Clone, Copy, Debug, PartialEq, Eq, Structural)]
pub enum Control {
    /// Move the paddle's target one key step left.
    NudgeLeft,
    /// Move the paddle's target one key step right.
    NudgeRight,
    /// [`Board::launch`] the parked ball.
    Launch,
}

/// The arrow key rules: left and right nudge the paddle, up launches.
pub open spec fn key_rule(key: Seq<char>) -> Option<Control> {
    if key == "ArrowLeft"@ {
        Some(Control::NudgeLeft)
    } else if key == "ArrowRight"@ {
        Some(Control::NudgeRight)
    } else if key == "ArrowUp"@ {
        Some(Control::Launch)
    } else {
        None
    }
}

/// The control `key` asks for, if any.
pub fn key_control(key: &str) -> (c: Option<Control>)
    ensures
        c == key_rule(key@),
{
    if is_key(key, "ArrowLeft") {
        Some(Control::NudgeLeft)
    } else if is_key(key, "ArrowRight") {
        Some(Control::NudgeRight)
    } else if is_key(key, "ArrowUp") {
        Some(Control::Launch)
    } else {
        None
    }
}

} // verus!
