//! Sirtet: the falling-tetromino stacker's rules. Pieces come from a shuffled bag of the seven
//! kinds, move and rotate only into free space, lock where they land, and every full row
//! clears, scoring by how many go at once and the level.

use vstd::prelude::*;
use crate::keys::is_key;

use crate::rng::{Rng, xorshift};

verus! {

pub const COLS: usize = 10;
pub const ROWS: usize = 20;
/// The well's squares, row-major.
pub const CELLS: usize = 200;
/// An empty square of the well; otherwise it holds the kind that settled there.
pub const EMPTY: i8 = -1;

/// 7 tetromino kinds × 4 rotations × 4 cells, as (row, col) offsets in a 4×4 box.
pub const SHAPES: [[[(i32, i32); 4]; 4]; 7] = [
    // I
    [
        [(1, 0), (1, 1), (1, 2), (1, 3)],
        [(0, 2), (1, 2), (2, 2), (3, 2)],
        [(2, 0), (2, 1), (2, 2), (2, 3)],
        [(0, 1), (1, 1), (2, 1), (3, 1)],
    ],
    // O
    [
        [(0, 1), (0, 2), (1, 1), (1, 2)],
        [(0, 1), (0, 2), (1, 1), (1, 2)],
        [(0, 1), (0, 2), (1, 1), (1, 2)],
        [(0, 1), (0, 2), (1, 1), (1, 2)],
    ],
    // T
    [
        [(0, 1), (1, 0), (1, 1), (1, 2)],
        [(0, 1), (1, 1), (1, 2), (2, 1)],
        [(1, 0), (1, 1), (1, 2), (2, 1)],
        [(0, 1), (1, 0), (1, 1), (2, 1)],
    ],
    // S
    [
        [(0, 1), (0, 2), (1, 0), (1, 1)],
        [(0, 1), (1, 1), (1, 2), (2, 2)],
        [(1, 1), (1, 2), (2, 0), (2, 1)],
        [(0, 0), (1, 0), (1, 1), (2, 1)],
    ],
    // Z
    [
        [(0, 0), (0, 1), (1, 1), (1, 2)],
        [(0, 2), (1, 1), (1, 2), (2, 1)],
        [(1, 0), (1, 1), (2, 1), (2, 2)],
        [(0, 1), (1, 0), (1, 1), (2, 0)],
    ],
    // J
    [
        [(0, 0), (1, 0), (1, 1), (1, 2)],
        [(0, 1), (0, 2), (1, 1), (2, 1)],
        [(1, 0), (1, 1), (1, 2), (2, 2)],
        [(0, 1), (1, 1), (2, 0), (2, 1)],
    ],
    // L
    [
        [(0, 2), (1, 0), (1, 1), (1, 2)],
        [(0, 1), (1, 1), (2, 1), (2, 2)],
        [(1, 0), (1, 1), (1, 2), (2, 0)],
        [(0, 0), (0, 1), (1, 1), (2, 1)],
    ],
];

pub type Well = [i8; CELLS];

/// Every offset in the shape table lies in its 4×4 box.
pub proof fn lemma_shapes_in_box(kind: int, rot: int, j: int)
    requires
        0 <= kind < 7,
        0 <= rot < 4,
        0 <= j < 4,
    ensures
        0 <= SHAPES[kind][rot][j].0 < 4,
        0 <= SHAPES[kind][rot][j].1 < 4,
{
}

/// Square `j` of piece `kind` at rotation `rot` with its box at (`prow`, `pcol`).
pub open spec fn piece_cell(kind: int, rot: int, prow: int, pcol: int, j: int) -> (int, int) {
    (prow + SHAPES[kind][rot][j].0, pcol + SHAPES[kind][rot][j].1)
}

/// The well square at (r, c).
pub open spec fn sq(g: Well, r: int, c: int) -> i8 {
    g[r * 10 + c]
}

/// Whether a piece fits: every square inside the walls and above the floor, and those inside
/// the well empty (squares above the top are free).
pub open spec fn fits(g: Well, kind: int, rot: int, prow: int, pcol: int) -> bool {
    forall|j: int|
        0 <= j < 4 ==> {
            let p = #[trigger] piece_cell(kind, rot, prow, pcol, j);
            &&& 0 <= p.1 < 10
            &&& p.0 < 20
            &&& p.0 >= 0 ==> sq(g, p.0, p.1) == EMPTY
        }
}

/// A position whose arithmetic stays inside `i32` for a step down and a kick either way.
pub open spec fn roomy(prow: i32, pcol: i32) -> bool {
    prow <= i32::MAX - 4 && i32::MIN + 2 <= pcol <= i32::MAX - 6
}

/// The squares of a piece (see [`piece_cell`]).
pub fn cells(kind: usize, rot: usize, prow: i32, pcol: i32) -> (out: [(i32, i32); 4])
    requires
        kind < 7,
        rot < 4,
        prow <= i32::MAX - 3,
        pcol <= i32::MAX - 3,
    ensures
        forall|j: int|
            0 <= j < 4 ==> (out[j].0 as int, out[j].1 as int) == piece_cell(
                kind as int,
                rot as int,
                prow as int,
                pcol as int,
                j,
            ),
{
    let shape: [(i32, i32); 4] = SHAPES[kind][rot];
    let mut out: [(i32, i32); 4] = [(0, 0); 4];
    let mut j: usize = 0;
    while j < 4
        invariant
            0 <= j <= 4,
            kind < 7,
            rot < 4,
            prow <= i32::MAX - 3,
            pcol <= i32::MAX - 3,
            shape == SHAPES[kind as int][rot as int],
            forall|i: int|
                0 <= i < j ==> (out[i].0 as int, out[i].1 as int) == piece_cell(
                    kind as int,
                    rot as int,
                    prow as int,
                    pcol as int,
                    i,
                ),
        decreases 4 - j,
    {
        proof {
            lemma_shapes_in_box(kind as int, rot as int, j as int);
        }
        out[j] = (prow + shape[j].0, pcol + shape[j].1);
        j += 1;
    }
    out
}

/// Whether the piece fits the well there (see [`fits`]).
pub fn valid(grid: &Well, kind: usize, rot: usize, prow: i32, pcol: i32) -> (ok: bool)
    requires
        kind < 7,
        rot < 4,
        prow <= i32::MAX - 3,
        pcol <= i32::MAX - 3,
    ensures
        ok == fits(*grid, kind as int, rot as int, prow as int, pcol as int),
{
    let cs = cells(kind, rot, prow, pcol);
    let mut j: usize = 0;
    while j < 4
        invariant
            0 <= j <= 4,
            forall|i: int|
                0 <= i < 4 ==> (cs[i].0 as int, cs[i].1 as int) == piece_cell(
                    kind as int,
                    rot as int,
                    prow as int,
                    pcol as int,
                    i,
                ),
            forall|i: int|
                0 <= i < j ==> {
                    let p = #[trigger] piece_cell(kind as int, rot as int, prow as int, pcol as int, i);
                    &&& 0 <= p.1 < 10
                    &&& p.0 < 20
                    &&& p.0 >= 0 ==> sq(*grid, p.0, p.1) == EMPTY
                },
        decreases 4 - j,
    {
        let r: i32 = cs[j].0;
        let c: i32 = cs[j].1;
        assert((r as int, c as int) == piece_cell(kind as int, rot as int, prow as int, pcol as int, j as int));
        if c < 0 || c >= COLS as i32 || r >= ROWS as i32 {
            return false;
        }
        if r >= 0 && grid[r as usize * COLS + c as usize] != EMPTY {
            return false;
        }
        j += 1;
    }
    true
}


// ---------------------------------------------------------------------------------------------
// The bag
// ---------------------------------------------------------------------------------------------

/// A fresh bag: one of each kind.
pub open spec fn fresh_bag() -> Seq<usize> {
    seq![0usize, 1, 2, 3, 4, 5, 6]
}

/// `s` with entries `i` and `j` exchanged.
pub open spec fn swapped(s: Seq<usize>, i: int, j: int) -> Seq<usize> {
    s.update(i, s[j]).update(j, s[i])
}

/// Fisher–Yates from position `i` down to 1: each step exchanges position `i` with one drawn
/// from `0..=i`. The shuffled bag and the generator after.
pub open spec fn shuffle(s: Seq<usize>, i: int, state: u64) -> (Seq<usize>, u64)
    decreases i,
{
    if i <= 0 {
        (s, state)
    } else {
        let x = xorshift(state);
        let j = (x % ((i + 1) as u64)) as int;
        shuffle(swapped(s, i, j), i - 1, x)
    }
}

/// What the next draw from `bag` gives, the bag left, and the generator after: the last kind
/// in the bag, refilled first with a shuffled set of all seven when empty.
pub open spec fn drawn(bag: Seq<usize>, state: u64) -> (usize, Seq<usize>, u64) {
    if bag.len() == 0 {
        let sh = shuffle(fresh_bag(), 6, state);
        (sh.0.last(), sh.0.drop_last(), sh.1)
    } else {
        (bag.last(), bag.drop_last(), state)
    }
}

proof fn lemma_shuffle_keeps_above(s: Seq<usize>, i: int, state: u64)
    requires
        i < s.len() <= 64,
    ensures
        shuffle(s, i, state).0.len() == s.len(),
        forall|k: int| i < k < s.len() ==> shuffle(s, i, state).0[k] == s[k],
    decreases i,
{
    if i > 0 {
        let x = xorshift(state);
        let j = (x % ((i + 1) as u64)) as int;
        assert(0 <= j < i + 1);
        let t = swapped(s, i, j);
        assert(t.len() == s.len());
        lemma_shuffle_keeps_above(t, i - 1, x);
        assert forall|k: int| i < k < s.len() implies shuffle(s, i, state).0[k] == s[k] by {
            assert(t[k] == s[k]);
        }
    }
}

/// **Fisher–Yates, step by step.** Shuffling from position `i` down leaves every position above
/// `i` alone and puts at `i` the entry found at the first draw modulo `i + 1`; so the first kind
/// a fresh bag deals is the generator's next draw modulo seven.
pub proof fn lemma_shuffle_places_the_drawn_entry(s: Seq<usize>, i: int, state: u64)
    requires
        0 < i < s.len() <= 64,
    ensures
        shuffle(s, i, state).0.len() == s.len(),
        shuffle(s, i, state).0[i] == s[(xorshift(state) % ((i + 1) as u64)) as int],
        forall|k: int| i < k < s.len() ==> shuffle(s, i, state).0[k] == s[k],
        drawn(seq![], state).0 == xorshift(state) % 7,
        drawn(seq![], state).1.len() == 6,
{
    let x = xorshift(state);
    let j = (x % ((i + 1) as u64)) as int;
    assert(0 <= j < i + 1);
    let t = swapped(s, i, j);
    assert(t.len() == s.len());
    lemma_shuffle_keeps_above(t, i - 1, x);
    lemma_shuffle_keeps_above(s, i, state);
    assert(t[i] == s[j]);
    let f = fresh_bag();
    let x0 = xorshift(state);
    let j0 = (x0 % 7u64) as int;
    assert(0 <= j0 < 7);
    let t0 = swapped(f, 6, j0);
    assert(t0.len() == 7);
    lemma_shuffle_keeps_above(t0, 5, x0);
    assert(t0[6] == f[j0]);
    assert(f[j0] == j0);
}

/// Every entry names a kind.
pub open spec fn kinds(s: Seq<usize>) -> bool {
    forall|k: int| 0 <= k < s.len() ==> s[k] < 7
}

/// A permutation of the seven kinds: seven entries, each a kind, none twice.
pub open spec fn one_of_each(s: Seq<usize>) -> bool {
    &&& s.len() == 7
    &&& kinds(s)
    &&& s.no_duplicates()
}

/// **The bag deals each kind once per seven pieces.** Every refill is a permutation of the
/// seven kinds, whatever the generator's state.
pub proof fn lemma_shuffle_deals_each_once(s: Seq<usize>, i: int, state: u64)
    requires
        one_of_each(s),
        i < 7,
    ensures
        one_of_each(shuffle(s, i, state).0),
    decreases i,
{
    if i > 0 {
        let x = xorshift(state);
        let j = (x % ((i + 1) as u64)) as int;
        let t = swapped(s, i, j);
        assert forall|a: int, b: int| 0 <= a < t.len() && 0 <= b < t.len() && a != b implies t[a]
            != t[b] by {
            let pa = if a == i {
                j
            } else if a == j {
                i
            } else {
                a
            };
            let pb = if b == i {
                j
            } else if b == j {
                i
            } else {
                b
            };
            assert(t[a] == s[pa] && t[b] == s[pb]);
        }
        lemma_shuffle_deals_each_once(t, i - 1, x);
    }
}

pub proof fn lemma_fresh_bag()
    ensures
        one_of_each(fresh_bag()),
{
    let s = fresh_bag();
    assert forall|a: int, b: int| 0 <= a < s.len() && 0 <= b < s.len() && a != b implies s[a] != s[b] by {
    }
}

/// Draw the next kind (see [`drawn`]).
pub fn draw_from(bag: &mut Vec<usize>, rng: &mut Rng) -> (k: usize)
    ensures
        (k, final(bag)@, final(rng).state) == drawn(old(bag)@, old(rng).state),
{
    if bag.len() == 0 {
        let mut fresh: Vec<usize> = Vec::new();
        fresh.push(0);
        fresh.push(1);
        fresh.push(2);
        fresh.push(3);
        fresh.push(4);
        fresh.push(5);
        fresh.push(6);
        assert(fresh@ =~= fresh_bag());
        let ghost state0 = rng.state;
        let mut i: usize = 6;
        while i >= 1
            invariant
                0 <= i <= 6,
                i == 0 ==> shuffle(fresh@, 0, rng.state) == (fresh@, rng.state),
                fresh@.len() == 7,
                shuffle(fresh@, i as int, rng.state) == shuffle(fresh_bag(), 6, state0),
            decreases i,
        {
            let x: u64 = rng.next();
            let j: usize = (x % (i as u64 + 1)) as usize;
            let ghost prev = fresh@;
            let a: usize = fresh[i];
            let b: usize = fresh[j];
            fresh.set(i, b);
            fresh.set(j, a);
            assert(fresh@ =~= swapped(prev, i as int, j as int));
            i -= 1;
        }
        *bag = fresh;
    }
    bag.pop().unwrap()
}


// ---------------------------------------------------------------------------------------------
// The game
// ---------------------------------------------------------------------------------------------

/// What a step did that the page reacts to (haptics, cards).
#[derive(Clone, Copy, PartialEq, Eq, Debug, Structural)]
pub enum Happening {
    /// A piece came to rest.
    Locked,
    /// This many lines cleared at once.
    Cleared(usize),
    GameOver,
}

pub struct Game {
    /// `EMPTY`, or the kind that settled there.
    pub grid: Well,
    pub kind: usize,
    pub rot: usize,
    pub prow: i32,
    pub pcol: i32,
    pub bag: Vec<usize>,
    pub next: usize,
    pub score: i64,
    pub best: i64,
    pub lines: i64,
    /// Full rows flashing before they go.
    pub clearing: Vec<usize>,
    /// The size of the last clear while its call-out shows (its fade runs on the page's clock).
    pub clear_popup: Option<usize>,
    pub game_over: bool,
    /// What the last step did that the page reacts to.
    pub happenings: Vec<Happening>,
    pub rng: Rng,
    /// The column the active piece had when the current drag began.
    pub drag_col0: i32,
}

/// The durable subset of [`Game`]: the well, active and next piece, and scoring.
pub struct SaveState {
    pub grid: Vec<i8>,
    pub kind: usize,
    pub rot: usize,
    pub prow: i32,
    pub pcol: i32,
    pub bag: Vec<usize>,
    pub next: usize,
    pub score: i64,
    pub best: i64,
    pub lines: i64,
    pub clearing: Vec<usize>,
}

/// The pieces in play name kinds and rotations, and the active piece's arithmetic has room.
pub open spec fn in_play(g: Game) -> bool {
    &&& g.kind < 7
    &&& g.rot < 4
    &&& g.next < 7
    &&& kinds(g.bag@)
    &&& roomy(g.prow, g.pcol)
}

/// Whether the active piece fits where it is.
pub open spec fn piece_fits(g: Game) -> bool {
    fits(g.grid, g.kind as int, g.rot as int, g.prow as int, g.pcol as int)
}

/// A spawn blocked at the top: the new piece fits neither in the spawn row nor one below.
pub open spec fn blocked(grid: Well, kind: int) -> bool {
    !fits(grid, kind, 0, -1, 3) && !fits(grid, kind, 0, 0, 3)
}

/// `b` is what a spawn makes of a game with this well, next kind, bag, generator, over flag
/// and reports: the next kind enters at the top in its first rotation, a new next is drawn,
/// and a blocked entry ends the game.
pub open spec fn spawned_from(
    grid: Well,
    next: usize,
    bag: Seq<usize>,
    state: u64,
    game_over: bool,
    happenings: Seq<Happening>,
    b: Game,
) -> bool {
    let d = drawn(bag, state);
    let stop = blocked(grid, next as int);
    &&& b.grid == grid
    &&& b.kind == next
    &&& b.next == d.0
    &&& b.bag@ == d.1
    &&& b.rng.state == d.2
    &&& b.rot == 0
    &&& b.pcol == 3
    &&& b.prow == -1
    &&& b.game_over == (game_over || stop)
    &&& b.happenings@ == if stop {
        happenings.push(Happening::GameOver)
    } else {
        happenings
    }
}

/// The level for a count of cleared lines: one more every ten, at most 15.
pub open spec fn level_of(lines: i64) -> int {
    let l = if lines >= 0 {
        lines / 10 + 1
    } else {
        -((-lines) / 10) + 1
    };
    if l < 15 {
        l
    } else {
        15
    }
}

/// The first of the kicks 0, +1, -1, +2, -2 (from the `k`-th on) that fits the piece at
/// rotation `rot`.
pub open spec fn first_kick_from(g: Well, kind: int, rot: int, prow: int, pcol: int, k: int) -> Option<int>
    decreases 5 - k,
{
    if k >= 5 || k < 0 {
        None
    } else {
        let kick = seq![0int, 1, -1, 2, -2][k];
        if fits(g, kind, rot, prow, pcol + kick) {
            Some(kick)
        } else {
            first_kick_from(g, kind, rot, prow, pcol, k + 1)
        }
    }
}

pub open spec fn first_kick(g: Well, kind: int, rot: int, prow: int, pcol: int) -> Option<int> {
    first_kick_from(g, kind, rot, prow, pcol, 0)
}

/// **Wall kicks.** Turning tries the piece in place, then kicked one column right, one left,
/// two right and two left, and takes the first of these where it fits; only when none fits is
/// the turn refused.
pub proof fn lemma_kicks_try_five_columns(g: Well, kind: int, rot: int, prow: int, pcol: int)
    ensures
        fits(g, kind, rot, prow, pcol) ==> first_kick(g, kind, rot, prow, pcol) == Some(0int),
        !fits(g, kind, rot, prow, pcol) && fits(g, kind, rot, prow, pcol + 1) ==> first_kick(
            g,
            kind,
            rot,
            prow,
            pcol,
        ) == Some(1int),
        !fits(g, kind, rot, prow, pcol) && !fits(g, kind, rot, prow, pcol + 1) && fits(g, kind, rot, prow, pcol - 1)
            ==> first_kick(g, kind, rot, prow, pcol) == Some(-1int),
        !fits(g, kind, rot, prow, pcol) && !fits(g, kind, rot, prow, pcol + 1) && !fits(g, kind, rot, prow, pcol - 1)
            && fits(g, kind, rot, prow, pcol + 2) ==> first_kick(g, kind, rot, prow, pcol) == Some(2int),
        !fits(g, kind, rot, prow, pcol) && !fits(g, kind, rot, prow, pcol + 1) && !fits(g, kind, rot, prow, pcol - 1)
            && !fits(g, kind, rot, prow, pcol + 2) && fits(g, kind, rot, prow, pcol - 2) ==> first_kick(
            g,
            kind,
            rot,
            prow,
            pcol,
        ) == Some(-2int),
        !fits(g, kind, rot, prow, pcol) && !fits(g, kind, rot, prow, pcol + 1) && !fits(g, kind, rot, prow, pcol - 1)
            && !fits(g, kind, rot, prow, pcol + 2) && !fits(g, kind, rot, prow, pcol - 2) ==> first_kick(
            g,
            kind,
            rot,
            prow,
            pcol,
        ) is None,
{
    reveal_with_fuel(first_kick_from, 6);
    assert(seq![0int, 1, -1, 2, -2][0] == 0);
    assert(seq![0int, 1, -1, 2, -2][1] == 1);
    assert(seq![0int, 1, -1, 2, -2][2] == -1);
    assert(seq![0int, 1, -1, 2, -2][3] == 2);
    assert(seq![0int, 1, -1, 2, -2][4] == -2);
}

/// Everything but the active piece's position and rotation kept.
pub open spec fn keeps_all_but_position(a: Game, b: Game) -> bool {
    &&& a.grid == b.grid
    &&& a.kind == b.kind
    &&& a.bag == b.bag
    &&& a.next == b.next
    &&& a.best == b.best
    &&& a.lines == b.lines
    &&& a.clearing == b.clearing
    &&& a.clear_popup == b.clear_popup
    &&& a.game_over == b.game_over
    &&& a.happenings == b.happenings
    &&& a.rng == b.rng
    &&& a.drag_col0 == b.drag_col0
}

/// Whether the piece covers well square (r, c).
pub open spec fn covers(kind: int, rot: int, prow: int, pcol: int, r: int, c: int) -> bool {
    exists|j: int| 0 <= j < 4 && #[trigger] piece_cell(kind, rot, prow, pcol, j) == (r, c)
}

pub open spec fn in_well(r: int, c: int) -> bool {
    0 <= r < 20 && 0 <= c < 10
}

/// `g2` is `g` with the piece settled into it: its squares inside the well take its kind.
pub open spec fn locked_into(g: Well, kind: int, rot: int, prow: int, pcol: int, g2: Well) -> bool {
    forall|r: int, c: int|
        in_well(r, c) ==> #[trigger] sq(g2, r, c) == if covers(kind, rot, prow, pcol, r, c) {
            kind as i8
        } else {
            sq(g, r, c)
        }
}

/// Every square of row `r` is taken.
pub open spec fn row_full(g: Well, r: int) -> bool {
    forall|c: int| 0 <= c < 10 ==> #[trigger] sq(g, r, c) != EMPTY
}

/// The full rows among the first `n`, top down.
pub open spec fn full_rows_upto(g: Well, n: int) -> Seq<usize>
    decreases n,
{
    if n <= 0 {
        seq![]
    } else if row_full(g, n - 1) {
        full_rows_upto(g, n - 1).push((n - 1) as usize)
    } else {
        full_rows_upto(g, n - 1)
    }
}

/// The full rows, top down.
pub open spec fn full_rows(g: Well) -> Seq<usize> {
    full_rows_upto(g, 20)
}

/// How many rows from `r` down to the floor survive a clear of `rows`.
pub open spec fn kept_from(rows: Seq<usize>, r: int) -> int
    decreases 20 - r,
{
    if r >= 20 {
        0
    } else {
        kept_from(rows, r + 1) + if rows.contains(r as usize) {
            0int
        } else {
            1int
        }
    }
}

/// `g2` is `g` with `rows` removed: every surviving row keeps its order and settles on the
/// ones below it, and the rows their removal frees at the top are empty.
pub open spec fn cleared_into(g: Well, rows: Seq<usize>, g2: Well) -> bool {
    &&& forall|r: int, c: int|
        in_well(r, c) && !rows.contains(r as usize) ==> #[trigger] sq(g2, 20 - kept_from(rows, r), c)
            == sq(g, r, c)
    &&& forall|d: int, c: int|
        0 <= d < 20 - kept_from(rows, 0) && 0 <= c < 10 ==> #[trigger] sq(g2, d, c) == EMPTY
}

/// What clearing `n` rows at once is worth before the level multiplies it.
pub open spec fn clear_base(n: int) -> int {
    if n <= 0 {
        0
    } else if n == 1 {
        100
    } else if n == 2 {
        300
    } else if n == 3 {
        500
    } else {
        800
    }
}

/// **Clearing rows together pays more.** A clear of one, two, three or four rows at once scores
/// 100, 300, 500 or 800 (times the level): more rows always score more, and any multi-row
/// clear beats clearing the same rows one at a time.
pub proof fn lemma_clear_rewards(n: int)
    requires
        1 <= n <= 4,
    ensures
        clear_base(n) == seq![100int, 300, 500, 800][n - 1],
        clear_base(n) > clear_base(n - 1),
        n >= 2 ==> clear_base(n) > n * clear_base(1),
        clear_base(0) == 0,
{
}


/// Everything but the well kept.
pub open spec fn keeps_all_but_well(a: Game, b: Game) -> bool {
    &&& a.kind == b.kind
    &&& a.rot == b.rot
    &&& a.prow == b.prow
    &&& a.pcol == b.pcol
    &&& a.bag == b.bag
    &&& a.next == b.next
    &&& a.score == b.score
    &&& a.best == b.best
    &&& a.lines == b.lines
    &&& a.clearing == b.clearing
    &&& a.clear_popup == b.clear_popup
    &&& a.game_over == b.game_over
    &&& a.happenings == b.happenings
    &&& a.rng == b.rng
    &&& a.drag_col0 == b.drag_col0
}

proof fn lemma_kept_bounds(rows: Seq<usize>, r: int)
    ensures
        0 <= kept_from(rows, r),
        r <= 20 ==> kept_from(rows, r) <= 20 - r,
        r > 20 ==> kept_from(rows, r) == 0,
    decreases 20 - r,
{
    if r < 20 {
        lemma_kept_bounds(rows, r + 1);
    }
}

proof fn lemma_kept_mono(rows: Seq<usize>, a: int, b: int)
    requires
        a <= b,
    ensures
        kept_from(rows, b) <= kept_from(rows, a),
    decreases b - a,
{
    if a < b && a < 20 {
        lemma_kept_mono(rows, a + 1, b);
    }
}

/// Whether `rows` lists `r`.
fn has_row(rows: &Vec<usize>, r: usize) -> (b: bool)
    ensures
        b == rows@.contains(r),
{
    let mut k: usize = 0;
    while k < rows.len()
        invariant
            0 <= k <= rows@.len(),
            forall|i: int| 0 <= i < k ==> rows@[i] != r,
        decreases rows.len() - k,
    {
        if rows[k] == r {
            return true;
        }
        k += 1;
    }
    false
}

/// `b` is `a` after its active piece locks: the piece settles into the well; with no full row
/// the next piece comes in, otherwise the full rows start to flash and call out their count.
pub open spec fn after_lock(a: Game, b: Game) -> bool {
    let full = full_rows(b.grid);
    &&& locked_into(a.grid, a.kind as int, a.rot as int, a.prow as int, a.pcol as int, b.grid)
    &&& full.len() == 0 ==> {
        &&& spawned_from(
            b.grid,
            a.next,
            a.bag@,
            a.rng.state,
            a.game_over,
            a.happenings@.push(Happening::Locked),
            b,
        )
        &&& b.clearing == a.clearing
        &&& b.clear_popup == a.clear_popup
    }
    &&& full.len() > 0 ==> {
        &&& b.happenings@ == a.happenings@.push(Happening::Cleared(full.len() as usize))
        &&& b.clear_popup == Some(full.len() as usize)
        &&& b.clearing@ == full
        &&& b.kind == a.kind
        &&& b.rot == a.rot
        &&& b.prow == a.prow
        &&& b.pcol == a.pcol
        &&& b.next == a.next
        &&& b.bag == a.bag
        &&& b.rng == a.rng
        &&& b.game_over == a.game_over
    }
    &&& b.score == a.score
    &&& b.best == a.best
    &&& b.lines == a.lines
    &&& b.drag_col0 == a.drag_col0
}

/// Every square of the well empty.
pub open spec fn well_empty(g: Well) -> bool {
    forall|i: int| 0 <= i < 200 ==> g[i] == EMPTY
}

/// The position after up to `n` one-column steps of `dir` that each fit.
pub open spec fn shifted(g: Well, kind: int, rot: int, prow: int, pcol: int, dir: int, n: int) -> int
    decreases n,
{
    if n <= 0 {
        pcol
    } else if fits(g, kind, rot, prow, pcol + dir) {
        shifted(g, kind, rot, prow, pcol + dir, dir, n - 1)
    } else {
        pcol
    }
}

/// A drag walks the piece only through columns where it fits.
proof fn lemma_shifted_fits(g: Well, kind: int, rot: int, prow: int, pcol: int, dir: int, n: int)
    requires
        fits(g, kind, rot, prow, pcol),
    ensures
        fits(g, kind, rot, prow, shifted(g, kind, rot, prow, pcol, dir, n)),
    decreases n,
{
    if n > 0 && fits(g, kind, rot, prow, pcol + dir) {
        lemma_shifted_fits(g, kind, rot, prow, pcol + dir, dir, n - 1);
    }
}

/// A wall kick is only ever taken where the turned piece fits.
proof fn lemma_kick_fits(g: Well, kind: int, rot: int, prow: int, pcol: int, k: int)
    ensures
        first_kick_from(g, kind, rot, prow, pcol, k) matches Some(x) ==> fits(g, kind, rot, prow, pcol + x),
    decreases 5 - k,
{
    if 0 <= k < 5 {
        lemma_kick_fits(g, kind, rot, prow, pcol, k + 1);
    }
}

/// Everything but the call-out kept.
pub open spec fn keeps_all_but_popup(a: Game, b: Game) -> bool {
    &&& a.grid == b.grid
    &&& a.kind == b.kind
    &&& a.rot == b.rot
    &&& a.prow == b.prow
    &&& a.pcol == b.pcol
    &&& a.bag == b.bag
    &&& a.next == b.next
    &&& a.score == b.score
    &&& a.best == b.best
    &&& a.lines == b.lines
    &&& a.clearing == b.clearing
    &&& a.game_over == b.game_over
    &&& a.happenings == b.happenings
    &&& a.rng == b.rng
    &&& a.drag_col0 == b.drag_col0
}

/// The well as a vector, square by square.
fn well_vec(g: &Well) -> (v: Vec<i8>)
    ensures
        v@ == g@,
{
    let mut v: Vec<i8> = Vec::new();
    let mut i: usize = 0;
    while i < CELLS
        invariant
            0 <= i <= 200,
            v@ == g@.take(i as int),
        decreases CELLS - i,
    {
        v.push(g[i]);
        assert(g@.take(i + 1) =~= g@.take(i as int).push(g[i as int]));
        i += 1;
    }
    assert(g@.take(200) =~= g@);
    v
}

/// The listed rows that lie in the well, in order.
pub open spec fn rows_in_well(s: Seq<usize>) -> Seq<usize>
    decreases s.len(),
{
    if s.len() == 0 {
        seq![]
    } else if s.last() < 20 {
        rows_in_well(s.drop_last()).push(s.last())
    } else {
        rows_in_well(s.drop_last())
    }
}

/// `s` is what a save of `g` holds: a live game's well, pieces, bag, scores and flashing rows;
/// for a finished one, a fresh game drawn from `fresh_seed` keeping the best.
pub open spec fn saved(g: Game, fresh_seed: u64, s: SaveState) -> bool {
    &&& !g.game_over ==> {
        &&& s.grid@ =~= g.grid@
        &&& s.kind == g.kind
        &&& s.rot == g.rot
        &&& s.prow == g.prow
        &&& s.pcol == g.pcol
        &&& s.bag@ =~= g.bag@
        &&& s.next == g.next
        &&& s.score == g.score
        &&& s.best == g.best
        &&& s.lines == g.lines
        &&& s.clearing@ =~= g.clearing@
    }
    &&& g.game_over ==> {
        let d = drawn(seq![], fresh_seed);
        let e = drawn(d.1, d.2);
        &&& s.grid@.len() == 200
        &&& forall|i: int| 0 <= i < 200 ==> s.grid@[i] == EMPTY
        &&& s.kind == d.0
        &&& s.next == e.0
        &&& s.bag@ =~= e.1
        &&& s.rot == 0
        &&& s.prow == -1
        &&& s.pcol == 3
        &&& s.score == 0
        &&& s.best == g.best
        &&& s.lines == 0
        &&& s.clearing@.len() == 0
    }
}

/// `b` is `a` rebuilt from the save `s`: a well of the right size, pieces that name kinds, the
/// scores, and the flashing rows that lie inside the well.
pub open spec fn restored(a: Game, s: SaveState, b: Game) -> bool {
    &&& s.grid@.len() == 200 ==> b.grid@ =~= s.grid@
    &&& s.grid@.len() != 200 ==> b.grid == a.grid
    &&& save_pieces_ok(s) ==> {
        &&& b.kind == s.kind
        &&& b.rot == s.rot % 4
        &&& b.prow == s.prow
        &&& b.pcol == s.pcol
        &&& b.bag@ =~= s.bag@
        &&& b.next == s.next
    }
    &&& !save_pieces_ok(s) ==> {
        &&& b.kind == a.kind
        &&& b.rot == a.rot
        &&& b.prow == a.prow
        &&& b.pcol == a.pcol
        &&& b.bag == a.bag
        &&& b.next == a.next
    }
    &&& b.score == s.score
    &&& b.best == if s.best > s.score {
        s.best
    } else {
        s.score
    }
    &&& b.lines == s.lines
    &&& b.clearing@ =~= rows_in_well(s.clearing@)
    &&& !b.game_over
    &&& b.rng == a.rng
    &&& b.happenings == a.happenings
    &&& b.clear_popup == a.clear_popup
    &&& b.drag_col0 == a.drag_col0
}

proof fn lemma_rows_in_well_keeps(rows: Seq<usize>)
    requires
        forall|k: int| 0 <= k < rows.len() ==> rows[k] < 20,
    ensures
        rows_in_well(rows) =~= rows,
    decreases rows.len(),
{
    if rows.len() > 0 {
        lemma_rows_in_well_keeps(rows.drop_last());
        assert(rows.drop_last().push(rows.last()) =~= rows);
    }
}

/// Restoring a save gives the game back: for a live game whose pieces name kinds and whose
/// flashing rows lie in the well, the well, the falling and next pieces, the bag, the scores,
/// the lines and the flashing rows all come back as they were.
pub proof fn lemma_save_then_restore_gives_the_game_back(g: Game, fresh_seed: u64, s: SaveState, t0: Game, t1: Game)
    requires
        !g.game_over,
        in_play(g),
        g.score <= g.best,
        forall|k: int| 0 <= k < g.clearing@.len() ==> g.clearing@[k] < 20,
        saved(g, fresh_seed, s),
        restored(t0, s, t1),
    ensures
        t1.grid == g.grid,
        t1.kind == g.kind,
        t1.rot == g.rot,
        t1.prow == g.prow,
        t1.pcol == g.pcol,
        t1.bag@ == g.bag@,
        t1.next == g.next,
        t1.score == g.score,
        t1.best == g.best,
        t1.lines == g.lines,
        t1.clearing@ == g.clearing@,
        !t1.game_over,
{
    lemma_rows_in_well_keeps(g.clearing@);
    assert(t1.grid =~= g.grid);
}

/// A save's pieces name kinds.
pub open spec fn save_pieces_ok(s: SaveState) -> bool {
    s.kind < 7 && s.next < 7 && kinds(s.bag@)
}

/// Drawing from a bag of kinds gives a kind and leaves a bag of kinds.
pub proof fn lemma_drawn_kinds(bag: Seq<usize>, state: u64)
    requires
        kinds(bag),
    ensures
        drawn(bag, state).0 < 7,
        kinds(drawn(bag, state).1),
{
    if bag.len() == 0 {
        lemma_fresh_bag();
        lemma_shuffle_deals_each_once(fresh_bag(), 6, state);
    }
}

impl Game {
    /// Draw the next kind from the bag.
    pub fn draw_bag(&mut self) -> (k: usize)
        ensures
            (k, final(self).bag@, final(self).rng.state) == drawn(old(self).bag@, old(self).rng.state),
            final(self).grid == old(self).grid,
            final(self).kind == old(self).kind,
            final(self).rot == old(self).rot,
            final(self).prow == old(self).prow,
            final(self).pcol == old(self).pcol,
            final(self).next == old(self).next,
            final(self).score == old(self).score,
            final(self).best == old(self).best,
            final(self).lines == old(self).lines,
            final(self).clearing == old(self).clearing,
            final(self).clear_popup == old(self).clear_popup,
            final(self).game_over == old(self).game_over,
            final(self).happenings == old(self).happenings,
            final(self).drag_col0 == old(self).drag_col0,
    {
        draw_from(&mut self.bag, &mut self.rng)
    }

    /// Bring the next piece in at the top; if it fits neither there nor one row down, the game
    /// is over.
    pub fn spawn(&mut self)
        requires
            old(self).next < 7,
        ensures
            spawned_from(
                old(self).grid,
                old(self).next,
                old(self).bag@,
                old(self).rng.state,
                old(self).game_over,
                old(self).happenings@,
                *final(self),
            ),
            final(self).score == old(self).score,
            final(self).best == old(self).best,
            final(self).lines == old(self).lines,
            final(self).clearing == old(self).clearing,
            final(self).clear_popup == old(self).clear_popup,
            final(self).drag_col0 == old(self).drag_col0,
    {
        self.kind = self.next;
        self.next = self.draw_bag();
        self.rot = 0;
        self.pcol = 3;
        self.prow = -1;
        if !valid(&self.grid, self.kind, self.rot, self.prow, self.pcol) && !valid(
            &self.grid,
            self.kind,
            self.rot,
            self.prow + 1,
            self.pcol,
        ) {
            self.game_over = true;
            self.happenings.push(Happening::GameOver);
        }
    }

    /// The level: one more every ten lines, at most 15.
    pub fn level(&self) -> (l: i64)
        ensures
            l == level_of(self.lines),
    {
        let l: i64 = self.lines / 10 + 1;
        if l < 15 {
            l
        } else {
            15
        }
    }

    /// Shift the active piece `dcol` columns if it fits there.
    pub fn move_dxy(&mut self, dcol: i32)
        requires
            old(self).kind < 7,
            old(self).rot < 4,
            old(self).prow <= i32::MAX - 3,
            i32::MIN <= old(self).pcol + dcol <= i32::MAX - 3,
        ensures
            final(self).pcol == if fits(
                old(self).grid,
                old(self).kind as int,
                old(self).rot as int,
                old(self).prow as int,
                old(self).pcol + dcol,
            ) {
                old(self).pcol + dcol
            } else {
                old(self).pcol as int
            },
            keeps_all_but_position(*final(self), *old(self)),
            final(self).rot == old(self).rot,
            final(self).prow == old(self).prow,
            final(self).score == old(self).score,
            piece_fits(*old(self)) ==> piece_fits(*final(self)),
    {
        if valid(&self.grid, self.kind, self.rot, self.prow, self.pcol + dcol) {
            self.pcol = self.pcol + dcol;
        }
    }

    /// Turn the active piece a quarter clockwise, kicking it up to two columns either way
    /// (tried in the order 0, +1, -1, +2, -2) to find room; nothing while a clear flashes or
    /// after the game ends.
    pub fn rotate(&mut self)
        requires
            old(self).kind < 7,
            old(self).rot < 4,
            roomy(old(self).prow, old(self).pcol),
        ensures
            (old(self).game_over || old(self).clearing@.len() > 0) ==> final(self).rot == old(self).rot
                && final(self).pcol == old(self).pcol,
            !(old(self).game_over || old(self).clearing@.len() > 0) ==> {
                let nr = (old(self).rot + 1) % 4;
                match first_kick(old(self).grid, old(self).kind as int, nr as int, old(self).prow as int, old(self).pcol as int) {
                    Some(k) => final(self).rot == nr && final(self).pcol == old(self).pcol + k,
                    None => final(self).rot == old(self).rot && final(self).pcol == old(self).pcol,
                }
            },
            keeps_all_but_position(*final(self), *old(self)),
            final(self).prow == old(self).prow,
            final(self).score == old(self).score,
            piece_fits(*old(self)) ==> piece_fits(*final(self)),
    {
        if self.game_over || self.clearing.len() > 0 {
            return;
        }
        let nr: usize = (self.rot + 1) % 4;
        proof {
            lemma_kick_fits(self.grid, self.kind as int, nr as int, self.prow as int, self.pcol as int, 0);
        }
        let kicks: [i32; 5] = [0, 1, -1, 2, -2];
        let mut k: usize = 0;
        while k < 5
            invariant
                0 <= k <= 5,
                kicks@ == seq![0i32, 1i32, -1i32, 2i32, -2i32],
                nr == (old(self).rot + 1) % 4,
                self.kind < 7,
                nr < 4,
                roomy(self.prow, self.pcol),
                *self == *old(self),
                !(old(self).game_over || old(self).clearing@.len() > 0),
                first_kick(self.grid, self.kind as int, nr as int, self.prow as int, self.pcol as int)
                    == first_kick_from(self.grid, self.kind as int, nr as int, self.prow as int, self.pcol as int, k as int),
            decreases 5 - k,
        {
            let kick: i32 = kicks[k];
            if valid(&self.grid, self.kind, nr, self.prow, self.pcol + kick) {
                self.rot = nr;
                self.pcol = self.pcol + kick;
                return;
            }
            k += 1;
        }
    }

    /// Drop the active piece one row if it fits there, scoring one.
    pub fn soft_drop(&mut self)
        requires
            old(self).kind < 7,
            old(self).rot < 4,
            old(self).prow <= i32::MAX - 4,
            old(self).pcol <= i32::MAX - 3,
            old(self).score < i64::MAX,
        ensures
            fits(old(self).grid, old(self).kind as int, old(self).rot as int, old(self).prow + 1, old(self).pcol as int)
                ==> final(self).prow == old(self).prow + 1 && final(self).score == old(self).score + 1,
            !fits(old(self).grid, old(self).kind as int, old(self).rot as int, old(self).prow + 1, old(self).pcol as int)
                ==> final(self).prow == old(self).prow && final(self).score == old(self).score,
            keeps_all_but_position(*final(self), *old(self)),
            final(self).rot == old(self).rot,
            final(self).pcol == old(self).pcol,
            piece_fits(*old(self)) ==> piece_fits(*final(self)),
    {
        if valid(&self.grid, self.kind, self.rot, self.prow + 1, self.pcol) {
            self.prow = self.prow + 1;
            self.score = self.score + 1;
        }
    }

    /// Where a straight drop would land the active piece: the last row it fits in going down.
    pub fn ghost_row(&self) -> (r: i32)
        requires
            self.kind < 7,
            self.rot < 4,
            self.prow <= i32::MAX - 4,
            self.pcol <= i32::MAX - 3,
        ensures
            r >= self.prow,
            r < 20 || r == self.prow,
            !fits(self.grid, self.kind as int, self.rot as int, r + 1, self.pcol as int),
            forall|x: int| self.prow < x <= r ==> fits(self.grid, self.kind as int, self.rot as int, x, self.pcol as int),
    {
        let mut r: i32 = self.prow;
        while valid(&self.grid, self.kind, self.rot, r + 1, self.pcol)
            invariant
                self.prow <= r,
                r < 20 || r == self.prow,
                r <= i32::MAX - 4,
                self.kind < 7,
                self.rot < 4,
                self.pcol <= i32::MAX - 3,
                forall|x: int| self.prow < x <= r ==> fits(self.grid, self.kind as int, self.rot as int, x, self.pcol as int),
            decreases 20 - r,
        {
            proof {
                lemma_shapes_in_box(self.kind as int, self.rot as int, 0);
                assert(piece_cell(self.kind as int, self.rot as int, r + 1, self.pcol as int, 0).0 < 20);
            }
            r = r + 1;
        }
        r
    }

    /// Settle the active piece where it is. With no full row the next piece comes in; full
    /// rows start to flash, to be cleared by [`Game::commit_clears`].
    pub fn lock(&mut self)
        requires
            in_play(*old(self)),
        ensures
            after_lock(*old(self), *final(self)),
    {
        let cs = cells(self.kind, self.rot, self.prow, self.pcol);
        let ghost g0 = self.grid;
        let ghost (kind, rot, prow, pcol) = (self.kind as int, self.rot as int, self.prow as int, self.pcol as int);
        let mut j: usize = 0;
        while j < 4
            invariant
                0 <= j <= 4,
                self.kind < 7,
                kind == self.kind as int,
                keeps_all_but_well(*self, *old(self)),
                forall|i: int| 0 <= i < 4 ==> (cs[i].0 as int, cs[i].1 as int) == piece_cell(kind, rot, prow, pcol, i),
                forall|r: int, c: int|
                    in_well(r, c) ==> #[trigger] sq(self.grid, r, c) == if exists|i: int|
                        0 <= i < j && #[trigger] piece_cell(kind, rot, prow, pcol, i) == (r, c) {
                        kind as i8
                    } else {
                        sq(g0, r, c)
                    },
            decreases 4 - j,
        {
            let r: i32 = cs[j].0;
            let c: i32 = cs[j].1;
            let ghost before = self.grid;
            if r >= 0 && r < ROWS as i32 && c >= 0 && c < COLS as i32 {
                let idx: usize = r as usize * COLS + c as usize;
                self.grid[idx] = self.kind as i8;
                assert forall|rr: int, cc: int| in_well(rr, cc) && (rr, cc) != (r as int, c as int) implies
                    sq(self.grid, rr, cc) == sq(before, rr, cc) by {
                    assert(rr * 10 + cc != r * 10 + c);
                }
            }
            assert forall|rr: int, cc: int| in_well(rr, cc) implies #[trigger] sq(self.grid, rr, cc) == if exists|i: int|
                0 <= i < j + 1 && #[trigger] piece_cell(kind, rot, prow, pcol, i) == (rr, cc) {
                kind as i8
            } else {
                sq(g0, rr, cc)
            } by {
                if piece_cell(kind, rot, prow, pcol, j as int) == (rr, cc) {
                    assert(sq(self.grid, rr, cc) == kind as i8);
                } else if exists|i: int| 0 <= i < j + 1 && #[trigger] piece_cell(kind, rot, prow, pcol, i) == (rr, cc) {
                    let i = choose|i: int| 0 <= i < j + 1 && #[trigger] piece_cell(kind, rot, prow, pcol, i) == (rr, cc);
                    assert(i < j);
                }
            }
            j += 1;
        }
        // Find full rows.
        let mut full: Vec<usize> = Vec::new();
        let mut r: usize = 0;
        while r < ROWS
            invariant
                0 <= r <= 20,
                full@ == full_rows_upto(self.grid, r as int),
                keeps_all_but_well(*self, *old(self)),
            decreases ROWS - r,
        {
            let mut c: usize = 0;
            let mut all: bool = true;
            while c < COLS
                invariant
                    0 <= r < 20,
                    0 <= c <= 10,
                    all == (forall|cc: int| 0 <= cc < c ==> #[trigger] sq(self.grid, r as int, cc) != EMPTY),
                decreases COLS - c,
            {
                assert(sq(self.grid, r as int, c as int) == self.grid[(r * COLS + c) as int]);
                if self.grid[r * COLS + c] == EMPTY {
                    all = false;
                }
                c += 1;
            }
            if all {
                full.push(r);
            }
            r += 1;
        }
        if full.len() == 0 {
            self.happenings.push(Happening::Locked);
            self.spawn();
        } else {
            let n: usize = full.len();
            self.happenings.push(Happening::Cleared(n));
            self.clear_popup = Some(n);
            self.clearing = full;
        }
    }

    /// Clear the flashing rows: the rows above settle down, the clear scores its size's base
    /// times the level, the lines count up, and the next piece comes in.
    pub fn commit_clears(&mut self)
        requires
            old(self).next < 7,
            i64::MIN <= clear_base(old(self).clearing@.len() as int) * level_of(old(self).lines),
            i64::MIN <= old(self).score + clear_base(old(self).clearing@.len() as int) * level_of(
                old(self).lines,
            ) <= i64::MAX,
            old(self).lines + old(self).clearing@.len() <= i64::MAX,
            old(self).clearing@.len() <= i64::MAX,
        ensures
            cleared_into(old(self).grid, old(self).clearing@, final(self).grid),
            final(self).score == old(self).score + clear_base(old(self).clearing@.len() as int)
                * level_of(old(self).lines),
            final(self).best == if final(self).score > old(self).best {
                final(self).score
            } else {
                old(self).best
            },
            final(self).lines == old(self).lines + old(self).clearing@.len(),
            final(self).clearing@.len() == 0,
            spawned_from(
                final(self).grid,
                old(self).next,
                old(self).bag@,
                old(self).rng.state,
                old(self).game_over,
                old(self).happenings@,
                *final(self),
            ),
            final(self).clear_popup == old(self).clear_popup,
            final(self).drag_col0 == old(self).drag_col0,
    {
        let mut rows: Vec<usize> = Vec::new();
        std::mem::swap(&mut rows, &mut self.clearing);
        let n: i64 = rows.len() as i64;
        let g0: Well = self.grid;
        let mut new_grid: Well = [EMPTY; CELLS];
        let mut dst: i32 = ROWS as i32 - 1;
        let mut r: usize = ROWS;
        while r > 0
            invariant
                0 <= r <= 20,
                rows@ == old(self).clearing@,
                g0 == old(self).grid,
                0 <= kept_from(rows@, r as int) <= 20 - r,
                dst == 19 - kept_from(rows@, r as int),
                forall|rr: int, c: int|
                    r <= rr < 20 && 0 <= c < 10 && !rows@.contains(rr as usize) ==> #[trigger] sq(
                        new_grid,
                        20 - kept_from(rows@, rr),
                        c,
                    ) == sq(g0, rr, c),
                forall|d: int, c: int| 0 <= d <= dst && 0 <= c < 10 ==> #[trigger] sq(new_grid, d, c) == EMPTY,
            decreases r,
        {
            r -= 1;
            if has_row(&rows, r) {
                continue;
            }
            let ghost before = new_grid;
            let ghost d0 = dst as int;
            let mut c: usize = 0;
            while c < COLS
                invariant
                    0 <= r < 20,
                    0 <= d0 < 20,
                    dst == d0,
                    0 <= c <= 10,
                    g0 == old(self).grid,
                    forall|cc: int| 0 <= cc < c ==> #[trigger] sq(new_grid, d0, cc) == sq(g0, r as int, cc),
                    forall|d: int, cc: int|
                        0 <= d < 20 && 0 <= cc < 10 && (d != d0 || cc >= c) ==> #[trigger] sq(new_grid, d, cc)
                            == sq(before, d, cc),
                decreases COLS - c,
            {
                let idx: usize = dst as usize * COLS + c;
                assert(idx as int == d0 * 10 + c as int);
                let ghost prev = new_grid;
                let v: i8 = g0[r * COLS + c];
                assert(v == sq(g0, r as int, c as int));
                new_grid[idx] = v;
                assert(new_grid[idx as int] == v);
                assert forall|x: int| 0 <= x < 200 && x != idx implies new_grid[x] == prev[x] by {}
                assert(sq(new_grid, d0, c as int) == v);
                assert forall|d: int, cc: int| 0 <= d < 20 && 0 <= cc < 10 && (d != d0 || cc >= c + 1) implies
                    #[trigger] sq(new_grid, d, cc) == sq(before, d, cc) by {
                    assert(d * 10 + cc != d0 * 10 + c);
                    assert(sq(new_grid, d, cc) == prev[d * 10 + cc]);
                    assert(sq(prev, d, cc) == prev[d * 10 + cc]);
                    assert(sq(prev, d, cc) == sq(before, d, cc));
                }
                assert forall|cc: int| 0 <= cc < c + 1 implies #[trigger] sq(new_grid, d0, cc) == sq(g0, r as int, cc) by {
                    if cc < c {
                        assert(d0 * 10 + cc != d0 * 10 + c);
                        assert(sq(new_grid, d0, cc) == prev[d0 * 10 + cc]);
                        assert(sq(prev, d0, cc) == prev[d0 * 10 + cc]);
                        assert(sq(prev, d0, cc) == sq(g0, r as int, cc));
                    }
                }
                c += 1;
            }
            proof {
                assert(kept_from(rows@, r as int) == kept_from(rows@, r + 1) + 1);
                assert forall|rr: int, cc: int|
                    r <= rr < 20 && 0 <= cc < 10 && !rows@.contains(rr as usize) implies #[trigger] sq(
                        new_grid,
                        20 - kept_from(rows@, rr),
                        cc,
                    ) == sq(g0, rr, cc) by {
                    lemma_kept_bounds(rows@, rr + 1);
                    let d = 20 - kept_from(rows@, rr);
                    if rr > r {
                        lemma_kept_mono(rows@, r + 1, rr);
                        assert(d != d0 && 0 <= d < 20);
                        assert(sq(new_grid, d, cc) == sq(before, d, cc));
                        assert(sq(before, d, cc) == sq(g0, rr, cc));
                    } else {
                        assert(d == d0);
                        assert(sq(new_grid, d0, cc) == sq(g0, r as int, cc));
                    }
                }
            }
            dst -= 1;
        }
        self.grid = new_grid;
        let base: i64 = if n <= 0 {
            0
        } else if n == 1 {
            100
        } else if n == 2 {
            300
        } else if n == 3 {
            500
        } else {
            800
        };
        let level: i64 = self.level();
        self.score = self.score + base * level;
        if self.score > self.best {
            self.best = self.score;
        }
        self.lines = self.lines + n;
        self.spawn();
    }

    /// One gravity tick: the active piece drops a row, or locks if it cannot.
    pub fn fall(&mut self)
        requires
            in_play(*old(self)),
        ensures
            fits(old(self).grid, old(self).kind as int, old(self).rot as int, old(self).prow + 1, old(self).pcol as int)
                ==> final(self).prow == old(self).prow + 1 && keeps_all_but_position(*final(self), *old(self))
                && final(self).rot == old(self).rot && final(self).pcol == old(self).pcol && final(self).score == old(self).score,
            !fits(old(self).grid, old(self).kind as int, old(self).rot as int, old(self).prow + 1, old(self).pcol as int)
                ==> after_lock(*old(self), *final(self)),
    {
        if valid(&self.grid, self.kind, self.rot, self.prow + 1, self.pcol) {
            self.prow = self.prow + 1;
        } else {
            self.lock();
        }
    }

    /// A fresh game: an empty well, the first two kinds drawn from `seed` (gamekit's seed).
    pub fn new(seed: u64) -> (g: Game)
        ensures
            ({
                let d = drawn(seq![], seed);
                spawned_from(g.grid, d.0, d.1, d.2, false, seq![], g)
            }),
            well_empty(g.grid),
            g.score == 0 && g.best == 0 && g.lines == 0,
            g.clearing@.len() == 0 && g.clear_popup is None && g.drag_col0 == 0,
            in_play(g),
    {
        let mut g = Game {
            grid: [EMPTY; CELLS],
            kind: 0,
            rot: 0,
            prow: 0,
            pcol: 3,
            bag: Vec::new(),
            next: 0,
            score: 0,
            best: 0,
            lines: 0,
            clearing: Vec::new(),
            clear_popup: None,
            game_over: false,
            happenings: Vec::new(),
            rng: Rng::new(seed),
            drag_col0: 0,
        };
        assert(g.bag@ =~= seq![]);
        assert(g.happenings@ =~= seq![]);
        proof {
            lemma_drawn_kinds(g.bag@, seed);
        }
        g.next = g.draw_bag();
        proof {
            lemma_drawn_kinds(g.bag@, g.rng.state);
        }
        g.spawn();
        g
    }

    /// Start over: an empty well, no score or lines, a fresh bag; the best score stays.
    pub fn restart(&mut self)
        ensures
            ({
                let d = drawn(seq![], old(self).rng.state);
                spawned_from(final(self).grid, d.0, d.1, d.2, false, old(self).happenings@, *final(self))
            }),
            well_empty(final(self).grid),
            final(self).score == 0 && final(self).lines == 0 && final(self).clearing@.len() == 0,
            final(self).best == old(self).best,
            final(self).clear_popup == old(self).clear_popup,
            final(self).drag_col0 == old(self).drag_col0,
            in_play(*final(self)),
    {
        self.grid = [EMPTY; CELLS];
        self.score = 0;
        self.lines = 0;
        self.game_over = false;
        self.clearing.clear();
        self.bag.clear();
        assert(self.bag@ =~= seq![]);
        proof {
            lemma_drawn_kinds(self.bag@, self.rng.state);
        }
        self.next = self.draw_bag();
        proof {
            lemma_drawn_kinds(self.bag@, self.rng.state);
        }
        self.spawn();
    }

    /// The line-clear call-out has faded.
    pub fn expire_popup(&mut self)
        ensures
            final(self).clear_popup is None,
            keeps_all_but_popup(*final(self), *old(self)),
    {
        self.clear_popup = None;
    }

    /// Hand over what happened since the last call.
    pub fn take_happenings(&mut self) -> (taken: Vec<Happening>)
        ensures
            taken == old(self).happenings,
            final(self).happenings@.len() == 0,
            final(self).grid == old(self).grid && final(self).kind == old(self).kind
                && final(self).rot == old(self).rot && final(self).prow == old(self).prow
                && final(self).pcol == old(self).pcol && final(self).bag == old(self).bag
                && final(self).next == old(self).next && final(self).score == old(self).score
                && final(self).best == old(self).best && final(self).lines == old(self).lines
                && final(self).clearing == old(self).clearing
                && final(self).clear_popup == old(self).clear_popup
                && final(self).game_over == old(self).game_over && final(self).rng == old(self).rng
                && final(self).drag_col0 == old(self).drag_col0,
    {
        let mut taken: Vec<Happening> = Vec::new();
        std::mem::swap(&mut taken, &mut self.happenings);
        taken
    }

    /// A drag begins: remember the column the piece starts from.
    pub fn begin_drag(&mut self)
        ensures
            final(self).drag_col0 == old(self).pcol,
            final(self).pcol == old(self).pcol,
            final(self).rot == old(self).rot,
            final(self).prow == old(self).prow,
            final(self).score == old(self).score,
            final(self).grid == old(self).grid,
            final(self).kind == old(self).kind,
            final(self).clearing == old(self).clearing,
            final(self).game_over == old(self).game_over,
    {
        self.drag_col0 = self.pcol;
    }

    /// The drag has carried the finger `cols` columns from where it began: walk the piece
    /// toward that column one step at a time, as far as it fits.
    pub fn drag_to(&mut self, cols: i32)
        requires
            old(self).kind < 7,
            old(self).rot < 4,
            old(self).prow <= i32::MAX - 3,
            i32::MIN + 1 <= old(self).drag_col0 + cols - old(self).pcol <= i32::MAX,
            i32::MIN <= old(self).drag_col0 + cols <= i32::MAX,
            i32::MIN + 1 <= old(self).pcol - 1,
            old(self).pcol <= i32::MAX - 4,
            i32::MIN + 1 <= old(self).drag_col0 + cols,
            old(self).drag_col0 + cols <= i32::MAX - 4,
        ensures
            ({
                let delta = old(self).drag_col0 + cols - old(self).pcol;
                let dir = if delta < 0 {
                    -1int
                } else {
                    1int
                };
                let n = if delta < 0 {
                    -delta
                } else {
                    delta
                };
                final(self).pcol == shifted(old(self).grid, old(self).kind as int, old(self).rot as int, old(self).prow as int, old(self).pcol as int, dir, n)
            }),
            keeps_all_but_position(*final(self), *old(self)),
            final(self).rot == old(self).rot,
            final(self).prow == old(self).prow,
            final(self).score == old(self).score,
            piece_fits(*old(self)) ==> piece_fits(*final(self)),
    {
        let want: i32 = self.drag_col0 + cols;
        let delta: i32 = want - self.pcol;
        let dir: i32 = if delta < 0 {
            -1
        } else {
            1
        };
        let n: i32 = if delta < 0 {
            -delta
        } else {
            delta
        };
        let ghost p0 = self.pcol as int;
        proof {
            if piece_fits(*self) {
                lemma_shifted_fits(self.grid, self.kind as int, self.rot as int, self.prow as int, p0, dir as int, n as int);
            }
        }
        let mut k: i32 = 0;
        while k < n
            invariant
                0 <= k <= n,
                n == (if delta < 0 { -delta } else { delta as int }),
                dir == (if delta < 0 { -1int } else { 1int }),
                delta == want - old(self).pcol,
                want == old(self).drag_col0 + cols,
                delta < 0 ==> self.pcol == p0 - k,
                delta >= 0 ==> self.pcol == p0 + k,
                p0 == old(self).pcol,
                self.kind < 7,
                self.rot < 4,
                self.prow <= i32::MAX - 3,
                keeps_all_but_position(*self, *old(self)),
                self.rot == old(self).rot,
                self.prow == old(self).prow,
                self.score == old(self).score,
                shifted(self.grid, self.kind as int, self.rot as int, self.prow as int, p0, dir as int, n as int)
                    == shifted(self.grid, self.kind as int, self.rot as int, self.prow as int, self.pcol as int, dir as int, (n - k) as int),
                old(self).pcol <= i32::MAX - 4,
                i32::MIN + 1 <= old(self).pcol - 1,
                i32::MIN + 1 <= want <= i32::MAX - 4,
            ensures
                self.pcol == shifted(self.grid, self.kind as int, self.rot as int, self.prow as int, p0, dir as int, n as int),
                keeps_all_but_position(*self, *old(self)),
                self.rot == old(self).rot,
                self.prow == old(self).prow,
                self.score == old(self).score,
            decreases n - k,
        {
            if valid(&self.grid, self.kind, self.rot, self.prow, self.pcol + dir) {
                self.pcol = self.pcol + dir;
                k += 1;
            } else {
                break;
            }
        }
    }

    /// Snapshot the durable state. A finished game keeps only the best score: what is saved is
    /// a fresh game drawn from `fresh_seed`.
    pub fn save_state(&self, fresh_seed: u64) -> (s: SaveState)
        ensures
            saved(*self, fresh_seed, s),
    {
        if self.game_over {
            let g = Game::new(fresh_seed);
            return SaveState {
                grid: well_vec(&g.grid),
                kind: g.kind,
                rot: g.rot,
                prow: g.prow,
                pcol: g.pcol,
                bag: g.bag.clone(),
                next: g.next,
                score: g.score,
                best: self.best,
                lines: g.lines,
                clearing: Vec::new(),
            };
        }
        SaveState {
            grid: well_vec(&self.grid),
            kind: self.kind,
            rot: self.rot,
            prow: self.prow,
            pcol: self.pcol,
            bag: self.bag.clone(),
            next: self.next,
            score: self.score,
            best: self.best,
            lines: self.lines,
            clearing: self.clearing.clone(),
        }
    }

    /// Rebuild from a snapshot: a well of the right size, pieces that name kinds, the scores,
    /// and the rows that were flashing (those inside the well), which the page commits on its
    /// next tick.
    pub fn apply_save(&mut self, s: SaveState)
        ensures
            restored(*old(self), s, *final(self)),
    {
        if s.grid.len() == CELLS {
            let mut i: usize = 0;
            while i < CELLS
                invariant
                    0 <= i <= 200,
                    s.grid@.len() == 200,
                    forall|j: int| 0 <= j < i ==> self.grid[j] == s.grid@[j],
                    self.kind == old(self).kind && self.rot == old(self).rot && self.prow == old(self).prow
                        && self.pcol == old(self).pcol && self.bag == old(self).bag && self.next == old(self).next
                        && self.rng == old(self).rng && self.happenings == old(self).happenings
                        && self.clear_popup == old(self).clear_popup && self.drag_col0 == old(self).drag_col0,
                decreases CELLS - i,
            {
                self.grid[i] = s.grid[i];
                i += 1;
            }
            assert(self.grid@ =~= s.grid@);
        }
        let mut ok: bool = s.kind < 7 && s.next < 7;
        let mut k: usize = 0;
        while k < s.bag.len()
            invariant
                0 <= k <= s.bag@.len(),
                ok == (s.kind < 7 && s.next < 7 && forall|j: int| 0 <= j < k ==> s.bag@[j] < 7),
            decreases s.bag.len() - k,
        {
            if s.bag[k] >= 7 {
                ok = false;
            }
            k += 1;
        }
        if ok {
            self.kind = s.kind;
            self.rot = s.rot % 4;
            self.prow = s.prow;
            self.pcol = s.pcol;
            self.bag = s.bag;
            self.next = s.next;
        }
        self.score = s.score;
        self.best = if s.best > s.score {
            s.best
        } else {
            s.score
        };
        self.lines = s.lines;
        let mut rows: Vec<usize> = Vec::new();
        let mut j: usize = 0;
        while j < s.clearing.len()
            invariant
                0 <= j <= s.clearing@.len(),
                rows@ == rows_in_well(s.clearing@.take(j as int)),
            decreases s.clearing.len() - j,
        {
            let r: usize = s.clearing[j];
            assert(s.clearing@.take(j + 1).drop_last() =~= s.clearing@.take(j as int));
            if r < ROWS {
                rows.push(r);
            }
            j += 1;
        }
        assert(s.clearing@.take(s.clearing@.len() as int) =~= s.clearing@);
        self.clearing = rows;
        self.game_over = false;
    }
}

} // verus!

verus! {

// ---------------------------------------------------------------------------------------------
// Laws
// ---------------------------------------------------------------------------------------------

/// **Every refill of the bag deals each of the seven kinds exactly once**, whatever the
/// generator's state.
pub proof fn lemma_refill_deals_each_kind_once(state: u64)
    ensures
        one_of_each(shuffle(fresh_bag(), 6, state).0),
{
    lemma_fresh_bag();
    lemma_shuffle_deals_each_once(fresh_bag(), 6, state);
}

proof fn lemma_full_rows_upto(g: Well, n: int)
    requires
        0 <= n <= 20,
    ensures
        forall|j: int|
            0 <= j < full_rows_upto(g, n).len() ==> (full_rows_upto(g, n)[j] as int) < n && row_full(
                g,
                full_rows_upto(g, n)[j] as int,
            ),
        forall|r: int| 0 <= r < n && row_full(g, r) ==> full_rows_upto(g, n).contains(r as usize),
    decreases n,
{
    if n > 0 {
        lemma_full_rows_upto(g, n - 1);
        let prev = full_rows_upto(g, n - 1);
        if row_full(g, n - 1) {
            let cur = prev.push((n - 1) as usize);
            assert forall|r: int| 0 <= r < n && row_full(g, r) implies cur.contains(r as usize) by {
                if r == n - 1 {
                    assert(cur[prev.len() as int] == r as usize);
                } else {
                    let i = choose|i: int| 0 <= i < prev.len() && prev[i] == r as usize;
                    assert(cur[i] == r as usize);
                }
            }
        }
    }
}

proof fn lemma_rows_land_everywhere(rows: Seq<usize>, r: int, d: int)
    requires
        0 <= r <= 20,
        20 - kept_from(rows, r) <= d < 20,
    ensures
        exists|rr: int| r <= rr < 20 && !rows.contains(rr as usize) && 20 - kept_from(rows, rr) == d,
    decreases 20 - r,
{
    if r < 20 {
        if !rows.contains(r as usize) && d == 20 - kept_from(rows, r) {
        } else {
            lemma_rows_land_everywhere(rows, r + 1, d);
        }
    }
}

/// **A clear leaves no full row.** Removing exactly the full rows of a well leaves a well
/// with none: every row left is one that was not full, settled lower, and the freed rows at
/// the top are empty.
pub proof fn lemma_clear_leaves_no_full_row(g: Well, g2: Well)
    requires
        cleared_into(g, full_rows(g), g2),
    ensures
        full_rows(g2).len() == 0,
{
    let rows = full_rows(g);
    lemma_full_rows_upto(g, 20);
    lemma_full_rows_upto(g2, 20);
    lemma_kept_bounds(rows, 0);
    assert forall|d: int| 0 <= d < 20 implies !row_full(g2, d) by {
        if d < 20 - kept_from(rows, 0) {
            assert(sq(g2, d, 0) == EMPTY);
        } else {
            lemma_rows_land_everywhere(rows, 0, d);
            let rr = choose|rr: int| 0 <= rr < 20 && !rows.contains(rr as usize) && 20 - kept_from(rows, rr) == d;
            assert(!row_full(g, rr));
            let c = choose|c: int| 0 <= c < 10 && !(#[trigger] sq(g, rr, c) != EMPTY);
            assert(sq(g2, 20 - kept_from(rows, rr), c) == sq(g, rr, c));
        }
    }
    if full_rows(g2).len() > 0 {
        let r0 = full_rows(g2)[0] as int;
        assert(r0 < 20 && row_full(g2, r0));
    }
}

} // verus!

verus! {

/// What the arrow keys do to the falling piece.
#[derive(Clone, Copy, Debug, PartialEq, Eq, Structural)]
pub enum Control {
    /// [`Game::move_dxy`] one column left.
    Left,
    /// [`Game::move_dxy`] one column right.
    Right,
    /// [`Game::rotate`].
    Rotate,
    /// [`Game::soft_drop`].
    Drop,
}

/// The arrow key rules: left and right shift the piece, up turns it, down drops it a row.
pub open spec fn key_rule(key: Seq<char>) -> Option<Control> {
    if key == "ArrowLeft"@ {
        Some(Control::Left)
    } else if key == "ArrowRight"@ {
        Some(Control::Right)
    } else if key == "ArrowUp"@ {
        Some(Control::Rotate)
    } else if key == "ArrowDown"@ {
        Some(Control::Drop)
    } else {
        None
    }
}

/// The control `key` asks for, if any.
pub fn key_control(key: &str) -> (c: Option<Control>)
    ensures
        c == key_rule(key@),
{
    if is_key(key, "ArrowLeft") {
        Some(Control::Left)
    } else if is_key(key, "ArrowRight") {
        Some(Control::Right)
    } else if is_key(key, "ArrowUp") {
        Some(Control::Rotate)
    } else if is_key(key, "ArrowDown") {
        Some(Control::Drop)
    } else {
        None
    }
}

} // verus!
