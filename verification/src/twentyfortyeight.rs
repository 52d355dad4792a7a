//! 2048: the sliding-tile rules. A move slides every tile toward one wall; two equal tiles that
//! meet merge into their sum, once per move, the pair nearest the wall first. A committed move
//! scores the merged values and spawns a new tile (a 2, sometimes a 4) on an empty square. The
//! game is over when no move can change the board.

use vstd::prelude::*;
use crate::keys::is_key;

use vstd::array::{spec_array_fill_for_copy_type, spec_array_update};

use crate::rng::{Rng, unit_steps, xorshift};

verus! {

/// The board's side.
pub const N: usize = 4;
/// Undos a game grants where the difficulty allows them.
pub const UNDOS: i32 = 3;

/// Row-major cells; 0 is an empty square.
pub type Grid = [[u32; N]; N];

// ---------------------------------------------------------------------------------------------
// The rules, as mathematics
// ---------------------------------------------------------------------------------------------

/// The square at position `k` (0 = the wall the tiles slide toward) of line `i` for a move in
/// direction `dir` (0 left, 1 right, 2 up, anything else down), as (row, column).
pub open spec fn coord(dir: u8, i: int, k: int) -> (int, int) {
    if dir == 0 {
        (i, k)
    } else if dir == 1 {
        (i, 3 - k)
    } else if dir == 2 {
        (k, i)
    } else {
        (3 - k, i)
    }
}

/// The inverse of [`coord`]: which line square (row, column) lies on, and where along it.
pub open spec fn line_pos(dir: u8, r: int, c: int) -> (int, int) {
    if dir == 0 {
        (r, c)
    } else if dir == 1 {
        (r, 3 - c)
    } else if dir == 2 {
        (c, r)
    } else {
        (c, 3 - r)
    }
}

pub open spec fn in_board(r: int, c: int) -> bool {
    0 <= r < 4 && 0 <= c < 4
}

pub open spec fn at(g: Grid, p: (int, int)) -> u32 {
    g[p.0][p.1]
}

/// The values of line `i` in travel order.
pub open spec fn line_of(g: Grid, dir: u8, i: int) -> Seq<u32> {
    Seq::new(4, |k: int| at(g, coord(dir, i, k)))
}

/// The tiles of a line, in order: each non-empty value with its position.
pub open spec fn tiles(l: Seq<u32>) -> Seq<(u32, usize)>
    decreases l.len(),
{
    if l.len() == 0 {
        seq![]
    } else {
        let t = tiles(l.drop_last());
        if l.last() == 0 {
            t
        } else {
            t.push((l.last(), (l.len() - 1) as usize))
        }
    }
}

/// The values a line of tiles settles into: taken in order, a tile equal to the next one
/// merges with it into their sum, and the pair is done for this move.
pub open spec fn merged(t: Seq<(u32, usize)>) -> Seq<int>
    decreases t.len(),
{
    if t.len() == 0 {
        seq![]
    } else if t.len() >= 2 && t[0].0 == t[1].0 {
        seq![2 * t[0].0] + merged(t.skip(2))
    } else {
        seq![t[0].0 as int] + merged(t.skip(1))
    }
}

/// What the merges of a line of tiles score: the sum of the merged values.
pub open spec fn gain(t: Seq<(u32, usize)>) -> int
    decreases t.len(),
{
    if t.len() == 0 {
        0
    } else if t.len() >= 2 && t[0].0 == t[1].0 {
        2 * t[0].0 + gain(t.skip(2))
    } else {
        gain(t.skip(1))
    }
}

/// A line after the move: the settled values against the wall, empty squares behind.
pub open spec fn slid_line(l: Seq<u32>) -> Seq<int> {
    let m = merged(tiles(l));
    Seq::new(4, |k: int| if k < m.len() { m[k] } else { 0 })
}

/// Square (r, c) after sliding `g` toward `dir`.
pub open spec fn slid(g: Grid, dir: u8, r: int, c: int) -> int {
    let p = line_pos(dir, r, c);
    slid_line(line_of(g, dir, p.0))[p.1]
}

/// Whether sliding toward `dir` changes anything.
pub open spec fn changes(g: Grid, dir: u8) -> bool {
    exists|r: int, c: int| in_board(r, c) && slid(g, dir, r, c) != g[r][c] as int
}

/// Every tile can double without leaving `u32`.
pub open spec fn small_tiles(g: Grid) -> bool {
    forall|r: int, c: int| in_board(r, c) ==> g[r][c] < 0x8000_0000u32
}

/// A tile in flight during the slide phase: its value and the squares it leaves and reaches.
#[derive(Clone, Copy)]
pub struct Slide {
    pub value: u32,
    pub from: (usize, usize),
    pub to: (usize, usize),
}

pub open spec fn square(dir: u8, i: int, k: int) -> (usize, usize) {
    (coord(dir, i, k).0 as usize, coord(dir, i, k).1 as usize)
}

/// The tiles' travels along line `i`, the next settled value landing at position `slot`: a
/// merging pair both travel to the square their sum takes.
pub open spec fn line_slides(t: Seq<(u32, usize)>, slot: int, dir: u8, i: int) -> Seq<Slide>
    decreases t.len(),
{
    if t.len() == 0 {
        seq![]
    } else if t.len() >= 2 && t[0].0 == t[1].0 {
        seq![
            Slide { value: t[0].0, from: square(dir, i, t[0].1 as int), to: square(dir, i, slot) },
            Slide { value: t[0].0, from: square(dir, i, t[1].1 as int), to: square(dir, i, slot) },
        ] + line_slides(t.skip(2), slot + 1, dir, i)
    } else {
        seq![Slide { value: t[0].0, from: square(dir, i, t[0].1 as int), to: square(dir, i, slot) }]
            + line_slides(t.skip(1), slot + 1, dir, i)
    }
}

/// The squares along line `i` where a merge lands.
pub open spec fn line_pops(t: Seq<(u32, usize)>, slot: int, dir: u8, i: int) -> Seq<
    (usize, usize),
>
    decreases t.len(),
{
    if t.len() == 0 {
        seq![]
    } else if t.len() >= 2 && t[0].0 == t[1].0 {
        seq![square(dir, i, slot)] + line_pops(t.skip(2), slot + 1, dir, i)
    } else {
        line_pops(t.skip(1), slot + 1, dir, i)
    }
}

/// The travels of lines `0..n`, line by line.
pub open spec fn slides_upto(g: Grid, dir: u8, n: int) -> Seq<Slide>
    decreases n,
{
    if n <= 0 {
        seq![]
    } else {
        slides_upto(g, dir, n - 1) + line_slides(tiles(line_of(g, dir, n - 1)), 0, dir, n - 1)
    }
}

/// The merge squares of lines `0..n`, line by line.
pub open spec fn pops_upto(g: Grid, dir: u8, n: int) -> Seq<(usize, usize)>
    decreases n,
{
    if n <= 0 {
        seq![]
    } else {
        pops_upto(g, dir, n - 1) + line_pops(tiles(line_of(g, dir, n - 1)), 0, dir, n - 1)
    }
}

/// What lines `0..n` score.
pub open spec fn gain_upto(g: Grid, dir: u8, n: int) -> int
    decreases n,
{
    if n <= 0 {
        0
    } else {
        gain_upto(g, dir, n - 1) + gain(tiles(line_of(g, dir, n - 1)))
    }
}

// ---------------------------------------------------------------------------------------------
// Lemmas
// ---------------------------------------------------------------------------------------------

proof fn lemma_tiles(l: Seq<u32>)
    requires
        l.len() <= 4,
    ensures
        tiles(l).len() <= l.len(),
        forall|j: int|
            0 <= j < tiles(l).len() ==> (tiles(l)[j].1 as int) < l.len() && l[tiles(l)[j].1 as int]
                == tiles(l)[j].0 && tiles(l)[j].0 != 0,
    decreases l.len(),
{
    if l.len() > 0 {
        let d = l.drop_last();
        lemma_tiles(d);
        let t = tiles(d);
        assert forall|j: int| 0 <= j < t.len() implies (t[j].1 as int) < l.len() && l[t[j].1 as int]
            == t[j].0 && t[j].0 != 0 by {
            assert(d[t[j].1 as int] == l[t[j].1 as int]);
        }
    }
}

proof fn lemma_skip_skip<A>(s: Seq<A>, a: int, b: int)
    requires
        0 <= a,
        0 <= b,
        a + b <= s.len(),
    ensures
        s.skip(a).skip(b) =~= s.skip(a + b),
{
}

proof fn lemma_merged_len(t: Seq<(u32, usize)>)
    ensures
        merged(t).len() <= t.len(),
    decreases t.len(),
{
    if t.len() >= 2 && t[0].0 == t[1].0 {
        lemma_merged_len(t.skip(2));
    } else if t.len() > 0 {
        lemma_merged_len(t.skip(1));
    }
}


// ---------------------------------------------------------------------------------------------
// Sliding
// ---------------------------------------------------------------------------------------------

/// The squares of one line in travel order (index 0 = the wall the tiles slide toward).
pub fn line_coords(dir: u8, i: usize) -> (out: [(usize, usize); N])
    requires
        i < N,
    ensures
        forall|k: int| 0 <= k < 4 ==> #[trigger] out[k] == square(dir, i as int, k),
        forall|k: int| 0 <= k < 4 ==> (out[k].0 as int, out[k].1 as int) == coord(dir, i as int, k),
        forall|k: int| 0 <= k < 4 ==> out[k].0 < 4 && out[k].1 < 4,
{
    let mut out: [(usize, usize); N] = [(0, 0); N];
    let mut k: usize = 0;
    while k < N
        invariant
            0 <= k <= 4,
            i < 4,
            forall|j: int| 0 <= j < k ==> #[trigger] out[j] == square(dir, i as int, j),
        decreases N - k,
    {
        let slot: (usize, usize) = if dir == 0 {
            (i, k)
        } else if dir == 1 {
            (i, N - 1 - k)
        } else if dir == 2 {
            (k, i)
        } else {
            (N - 1 - k, i)
        };
        out[k] = slot;
        k += 1;
    }
    out
}

/// Slide line `i` of `grid` toward `dir` into `next`, whose squares on that line are empty:
/// settle its values there, append its travels and merge squares, and return what it scores.
#[verifier::rlimit(50)]
fn slide_line_into(
    grid: &Grid,
    dir: u8,
    i: usize,
    next: &mut Grid,
    slides: &mut Vec<Slide>,
    pops: &mut Vec<(usize, usize)>,
) -> (gained: i64)
    requires
        small_tiles(*grid),
        i < N,
        forall|r: int, c: int|
            in_board(r, c) && line_pos(dir, r, c).0 == i ==> old(next)[r][c] == 0,
    ensures
        forall|r: int, c: int|
            in_board(r, c) && line_pos(dir, r, c).0 == i ==> final(next)[r][c] as int == slid(
                *grid,
                dir,
                r,
                c,
            ),
        forall|r: int, c: int|
            in_board(r, c) && line_pos(dir, r, c).0 != i ==> final(next)[r][c] == old(next)[r][c],
        final(slides)@ == old(slides)@ + line_slides(
            tiles(line_of(*grid, dir, i as int)),
            0,
            dir,
            i as int,
        ),
        final(pops)@ == old(pops)@ + line_pops(tiles(line_of(*grid, dir, i as int)), 0, dir, i as int),
        gained as int == gain(tiles(line_of(*grid, dir, i as int))),
        0 <= gained <= 0x4_0000_0000,
{
    let ghost l = line_of(*grid, dir, i as int);
    let coords = line_coords(dir, i);
    // The line's tiles, in travel order, with their positions along it.
    let mut vals: Vec<(u32, usize)> = Vec::new();
    let mut k: usize = 0;
    while k < N
        invariant
            0 <= k <= 4,
            i < 4,
            l == line_of(*grid, dir, i as int),
            forall|j: int| 0 <= j < 4 ==> (coords[j].0 as int, coords[j].1 as int) == coord(dir, i as int, j),
            forall|j: int| 0 <= j < 4 ==> coords[j].0 < 4 && coords[j].1 < 4,
            vals@ == tiles(l.take(k as int)),
        decreases N - k,
    {
        let v: u32 = grid[coords[k].0][coords[k].1];
        assert(v == l[k as int]);
        assert(l.take(k + 1).drop_last() =~= l.take(k as int));
        if v != 0 {
            vals.push((v, k));
        }
        k += 1;
    }
    assert(l.take(4) =~= l);
    let ghost t = tiles(l);
    proof {
        lemma_tiles(l);
        lemma_merged_len(t);
    }
    let ghost slides0 = slides@;
    let ghost pops0 = pops@;
    let ghost next0 = *next;
    let mut gained: i64 = 0;
    let mut slot: usize = 0;
    let mut k: usize = 0;
    assert(t.skip(0) =~= t);
    assert(merged(t).skip(0) =~= merged(t));
    while k < vals.len()
        invariant
            vals@ == t,
            t == tiles(l),
            l == line_of(*grid, dir, i as int),
            small_tiles(*grid),
            i < 4,
            t.len() <= 4,
            forall|j: int|
                0 <= j < t.len() ==> (t[j].1 as int) < 4 && l[t[j].1 as int] == t[j].0 && t[j].0
                    != 0,
            forall|j: int| 0 <= j < 4 ==> #[trigger] coords[j] == square(dir, i as int, j),
            forall|j: int| 0 <= j < 4 ==> (coords[j].0 as int, coords[j].1 as int) == coord(dir, i as int, j),
            forall|j: int| 0 <= j < 4 ==> coords[j].0 < 4 && coords[j].1 < 4,
            0 <= slot <= k <= t.len(),
            slot <= merged(t).len(),
            merged(t.skip(k as int)) =~= merged(t).skip(slot as int),
            slides0 + line_slides(t, 0, dir, i as int) == slides@ + line_slides(
                t.skip(k as int),
                slot as int,
                dir,
                i as int,
            ),
            pops0 + line_pops(t, 0, dir, i as int) == pops@ + line_pops(
                t.skip(k as int),
                slot as int,
                dir,
                i as int,
            ),
            gain(t) == gained + gain(t.skip(k as int)),
            0 <= gained <= 0x1_0000_0000 * k,
            forall|r: int, c: int|
                in_board(r, c) && line_pos(dir, r, c).0 == i && line_pos(dir, r, c).1 < slot
                    ==> next[r][c] as int == merged(t)[line_pos(dir, r, c).1],
            forall|r: int, c: int|
                in_board(r, c) && line_pos(dir, r, c).0 == i && line_pos(dir, r, c).1 >= slot
                    ==> next[r][c] == 0,
            forall|r: int, c: int|
                in_board(r, c) && line_pos(dir, r, c).0 != i ==> next[r][c] == next0[r][c],
        decreases vals.len() - k,
    {
        let v: u32 = vals[k].0;
        let from_k: usize = vals[k].1;
        let to: (usize, usize) = coords[slot];
        let ghost rest = t.skip(k as int);
        assert(rest[0] == t[k as int]);
        assert(rest.len() == t.len() - k);
        if k + 1 < vals.len() {
            assert(rest[1] == t[k + 1]);
        }
        assert(v < 0x8000_0000u32) by {
            assert(v == l[from_k as int]);
            assert(l[from_k as int] == at(*grid, coord(dir, i as int, from_k as int)));
            let p = coord(dir, i as int, from_k as int);
            assert(in_board(p.0, p.1));
            assert(grid[p.0][p.1] < 0x8000_0000u32);
        }
        if k + 1 < vals.len() && vals[k + 1].0 == v {
            assert(rest[1] == t[k + 1]);
            proof {
                lemma_skip_skip(t, k as int, 2);
                assert(merged(rest) == seq![2 * v] + merged(t.skip(k + 2)));
                assert(merged(t).skip(slot as int).len() >= 1);
                lemma_skip_skip(merged(t), slot as int, 1);
                assert(merged(t)[slot as int] == merged(t).skip(slot as int)[0]);
            }
            let from2: usize = vals[k + 1].1;
            next[to.0][to.1] = v * 2;
            gained = gained + (v * 2) as i64;
            pops.push(to);
            slides.push(Slide { value: v, from: coords[from_k], to });
            slides.push(Slide { value: v, from: coords[from2], to });
            assert(merged(rest) == seq![2 * v] + merged(t.skip(k + 2)));
            assert(merged(t)[slot as int] == 2 * v);
            k += 2;
        } else {
            proof {
                lemma_skip_skip(t, k as int, 1);
                assert(merged(rest) == seq![v as int] + merged(t.skip(k + 1)));
                assert(merged(t).skip(slot as int).len() >= 1);
                lemma_skip_skip(merged(t), slot as int, 1);
                assert(merged(t)[slot as int] == merged(t).skip(slot as int)[0]);
            }
            next[to.0][to.1] = v;
            slides.push(Slide { value: v, from: coords[from_k], to });
            assert(merged(rest) == seq![v as int] + merged(t.skip(k + 1)));
            assert(merged(t)[slot as int] == v);
            k += 1;
        }
        slot += 1;
    }
    assert(t.skip(k as int) =~= Seq::<(u32, usize)>::empty());
    gained
}


/// A move computed for a drag in progress: everything needed to preview it (tiles tracking the
/// finger toward `slides[..].to`), then commit or abandon it on release.
pub struct Pending {
    pub dir: u8,
    pub slides: Vec<Slide>,
    pub next: Grid,
    pub pops: Vec<(usize, usize)>,
    pub gained: i64,
}

/// What a computed move says about `g` slid toward `dir`: its settled board, travels, merge
/// squares and score are exactly the rules'.
pub open spec fn describes(p: Pending, g: Grid, dir: u8) -> bool {
    &&& p.dir == dir
    &&& forall|r: int, c: int| in_board(r, c) ==> p.next[r][c] as int == slid(g, dir, r, c)
    &&& p.slides@ == slides_upto(g, dir, 4)
    &&& p.pops@ == pops_upto(g, dir, 4)
    &&& p.gained as int == gain_upto(g, dir, 4)
}

/// Whether two boards differ on some square.
fn differs(a: &Grid, b: &Grid) -> (d: bool)
    ensures
        d == exists|r: int, c: int| in_board(r, c) && a[r][c] != b[r][c],
{
    let mut r: usize = 0;
    while r < N
        invariant
            0 <= r <= 4,
            forall|i: int, j: int| 0 <= i < r && 0 <= j < 4 ==> a[i][j] == b[i][j],
        decreases N - r,
    {
        let mut c: usize = 0;
        while c < N
            invariant
                0 <= r < 4,
                0 <= c <= 4,
                forall|i: int, j: int| 0 <= i < r && 0 <= j < 4 ==> a[i][j] == b[i][j],
                forall|j: int| 0 <= j < c ==> a[r as int][j] == b[r as int][j],
            decreases N - c,
        {
            if a[r][c] != b[r][c] {
                assert(in_board(r as int, c as int));
                return true;
            }
            c += 1;
        }
        r += 1;
    }
    false
}

/// Work out what sliding `grid` toward `dir` would do. Pure: nothing is applied. `None` when
/// no tile can move that way.
pub fn compute_move(grid: &Grid, dir: u8) -> (res: Option<Pending>)
    requires
        small_tiles(*grid),
    ensures
        res is None <==> !changes(*grid, dir),
        res matches Some(p) ==> describes(p, *grid, dir),
{
    let mut next: Grid = [[0u32; N]; N];
    let mut slides: Vec<Slide> = Vec::new();
    let mut pops: Vec<(usize, usize)> = Vec::new();
    let mut gained: i64 = 0;
    let mut i: usize = 0;
    while i < N
        invariant
            0 <= i <= 4,
            small_tiles(*grid),
            forall|r: int, c: int|
                in_board(r, c) && line_pos(dir, r, c).0 < i ==> next[r][c] as int == slid(
                    *grid,
                    dir,
                    r,
                    c,
                ),
            forall|r: int, c: int| in_board(r, c) && line_pos(dir, r, c).0 >= i ==> next[r][c] == 0,
            slides@ == slides_upto(*grid, dir, i as int),
            pops@ == pops_upto(*grid, dir, i as int),
            gained as int == gain_upto(*grid, dir, i as int),
            0 <= gained <= 0x4_0000_0000 * i,
        decreases N - i,
    {
        let g: i64 = slide_line_into(grid, dir, i, &mut next, &mut slides, &mut pops);
        gained = gained + g;
        i += 1;
    }
    if differs(&next, grid) {
        Some(Pending { dir, slides, next, pops, gained })
    } else {
        None
    }
}


// ---------------------------------------------------------------------------------------------
// Difficulty, spawning
// ---------------------------------------------------------------------------------------------

/// The three rule sets: how often a 4 spawns, how many tiles spawn per move, and whether undo is
/// on the table.
#[derive(Clone, Copy, PartialEq, Eq, Debug, Structural)]
pub enum Difficulty {
    Easy,
    Normal,
    Hard,
}

pub const DIFFICULTIES: [Difficulty; 3] = [Difficulty::Easy, Difficulty::Normal, Difficulty::Hard];

pub open spec fn odds_of_four(d: Difficulty) -> u64 {
    match d {
        Difficulty::Easy => 0,
        Difficulty::Normal => 900719925474100,
        Difficulty::Hard => 1801439850948199,
    }
}

pub open spec fn spawns_per_move(d: Difficulty) -> int {
    match d {
        Difficulty::Hard => 2,
        _ => 1,
    }
}

impl Difficulty {
    /// How likely a spawn is a 4 (none on Easy, one in ten on Normal, one in five on Hard), as
    /// the odds [`Rng::unit_below`] takes: the whole 2^-53 steps of a unit draw that fall under
    /// the probability.
    pub fn four_odds(self) -> (r: u64)
        ensures
            r == odds_of_four(self),
    {
        match self {
            Difficulty::Easy => 0,
            Difficulty::Normal => 900719925474100,
            Difficulty::Hard => 1801439850948199,
        }
    }

    pub fn tiles_per_spawn(self) -> (r: usize)
        ensures
            r == spawns_per_move(self),
    {
        match self {
            Difficulty::Hard => 2,
            _ => 1,
        }
    }

    pub fn undo_allowed(self) -> (r: bool)
        ensures
            r == (self == Difficulty::Easy),
    {
        match self {
            Difficulty::Easy => true,
            _ => false,
        }
    }

    /// The accessibility id of this difficulty's button in the picker.
    pub fn id(self) -> (r: &'static str)
        ensures
            r@ == (match self {
                Difficulty::Easy => "tf-diff-easy"@,
                Difficulty::Normal => "tf-diff-normal"@,
                Difficulty::Hard => "tf-diff-hard"@,
            }),
    {
        match self {
            Difficulty::Easy => "tf-diff-easy",
            Difficulty::Normal => "tf-diff-normal",
            Difficulty::Hard => "tf-diff-hard",
        }
    }
}

impl Default for Difficulty {
    fn default() -> (r: Difficulty)
        ensures
            r == Difficulty::Normal,
    {
        Difficulty::Normal
    }
}

/// The empty squares among the first `n` in row-major order.
pub open spec fn empties_upto(g: Grid, n: int) -> Seq<(usize, usize)>
    decreases n,
{
    if n <= 0 {
        seq![]
    } else {
        let e = empties_upto(g, n - 1);
        if g[(n - 1) / 4][(n - 1) % 4] == 0 {
            e.push((((n - 1) / 4) as usize, ((n - 1) % 4) as usize))
        } else {
            e
        }
    }
}

/// The empty squares, in row-major order.
pub open spec fn empties(g: Grid) -> Seq<(usize, usize)> {
    empties_upto(g, 16)
}

/// The value a spawn places, given the draw that decides it.
pub open spec fn spawn_value(d: Difficulty, draw: u64) -> u32 {
    if unit_steps(draw) < odds_of_four(d) {
        4
    } else {
        2
    }
}

/// `g` with square `p` set to `v`.
pub open spec fn set_square(g: Grid, p: (usize, usize), v: u32) -> Grid {
    spec_array_update(g, p.0 as int, spec_array_update(g[p.0 as int], p.1 as int, v))
}

/// The empty square a spawn picks on `g` with the generator at `state`.
pub open spec fn spawn_pick(g: Grid, state: u64) -> (usize, usize) {
    let e = empties(g);
    e[((xorshift(state) as usize) as int) % (e.len() as int)]
}

/// What a spawn does to `g` with the generator at `state`: the board after, the generator
/// after, and the square filled. On a full board nothing happens; otherwise the first draw
/// picks the empty square and the second decides its value.
pub open spec fn spawned(g: Grid, state: u64, d: Difficulty) -> (Grid, u64, Option<(usize, usize)>) {
    if empties(g).len() == 0 {
        (g, state, None)
    } else {
        let p = spawn_pick(g, state);
        let draw = xorshift(xorshift(state));
        (set_square(g, p, spawn_value(d, draw)), draw, Some(p))
    }
}

/// Two boards that agree on every square are the same board.
pub proof fn lemma_grid_ext(a: Grid, b: Grid)
    requires
        forall|r: int, c: int| in_board(r, c) ==> a[r][c] == b[r][c],
    ensures
        a == b,
{
    assert forall|r: int| 0 <= r < 4 implies a[r] =~= b[r] by {
        assert forall|c: int| 0 <= c < 4 implies a[r][c] == b[r][c] by {
            assert(in_board(r, c));
        }
    }
    assert(a =~= b);
}

/// Reading a square of [`set_square`].
pub proof fn lemma_set_square(g: Grid, p: (usize, usize), v: u32)
    requires
        p.0 < 4,
        p.1 < 4,
    ensures
        forall|r: int, c: int|
            in_board(r, c) ==> #[trigger] set_square(g, p, v)[r][c] == if (r, c) == (
                p.0 as int,
                p.1 as int,
            ) {
                v
            } else {
                g[r][c]
            },
{
    broadcast use vstd::array::group_array_axioms;

    let row = spec_array_update(g[p.0 as int], p.1 as int, v);
    assert(row@ == g[p.0 as int]@.update(p.1 as int, v));
    let h = set_square(g, p, v);
    assert(h@ == g@.update(p.0 as int, row));
    assert forall|r: int, c: int| in_board(r, c) implies #[trigger] h[r][c] == if (r, c) == (
        p.0 as int,
        p.1 as int,
    ) {
        v
    } else {
        g[r][c]
    } by {
        assert(h[r] == h@[r]);
        if r == p.0 as int {
            assert(h[r] == row);
            assert(row[c] == row@[c]);
        } else {
            assert(h@[r] == g@[r]);
        }
    }
}

proof fn lemma_empties_upto(g: Grid, n: int)
    requires
        0 <= n <= 16,
    ensures
        empties_upto(g, n).len() <= n,
        forall|j: int|
            0 <= j < empties_upto(g, n).len() ==> {
                let p = #[trigger] empties_upto(g, n)[j];
                p.0 < 4 && p.1 < 4 && g[p.0 as int][p.1 as int] == 0
            },
    decreases n,
{
    if n > 0 {
        lemma_empties_upto(g, n - 1);
    }
}

/// A square's place in row-major order.
pub open spec fn rank(p: (usize, usize)) -> int {
    4 * p.0 + p.1
}

proof fn lemma_empties_upto_order(g: Grid, n: int)
    requires
        0 <= n <= 16,
    ensures
        forall|j: int|
            0 <= j < empties_upto(g, n).len() ==> {
                let p = #[trigger] empties_upto(g, n)[j];
                &&& p.0 < 4 && p.1 < 4
                &&& g[p.0 as int][p.1 as int] == 0
                &&& rank(p) < n
            },
        forall|i: int, j: int|
            0 <= i < j < empties_upto(g, n).len() ==> rank(empties_upto(g, n)[i]) < rank(
                empties_upto(g, n)[j],
            ),
        forall|r: int, c: int|
            #![trigger g[r][c]]
            0 <= r < 4 && 0 <= c < 4 && 4 * r + c < n && g[r][c] == 0 ==> exists|j: int|
                0 <= j < empties_upto(g, n).len() && #[trigger] empties_upto(g, n)[j] == (
                    r as usize,
                    c as usize,
                ),
    decreases n,
{
    if n > 0 {
        lemma_empties_upto_order(g, n - 1);
        let e = empties_upto(g, n - 1);
        let q = (((n - 1) / 4) as usize, ((n - 1) % 4) as usize);
        assert(rank(q) == n - 1);
        if g[(n - 1) / 4][(n - 1) % 4] == 0 {
            let e2 = e.push(q);
            assert(empties_upto(g, n) == e2);
            assert forall|r: int, c: int|
                0 <= r < 4 && 0 <= c < 4 && 4 * r + c < n && g[r][c] == 0 implies exists|j: int|
                0 <= j < e2.len() && #[trigger] e2[j] == (r as usize, c as usize) by {
                if 4 * r + c == n - 1 {
                    assert(r == (n - 1) / 4 && c == (n - 1) % 4);
                    assert(e2[e.len() as int] == (r as usize, c as usize));
                } else {
                    let j = choose|j: int| 0 <= j < e.len() && e[j] == (r as usize, c as usize);
                    assert(e2[j] == e[j]);
                }
            }
        } else {
            assert(empties_upto(g, n) == e);
            assert forall|r: int, c: int|
                0 <= r < 4 && 0 <= c < 4 && 4 * r + c < n && g[r][c] == 0 implies exists|j: int|
                0 <= j < e.len() && #[trigger] e[j] == (r as usize, c as usize) by {
                if 4 * r + c == n - 1 {
                    assert(r == (n - 1) / 4 && c == (n - 1) % 4);
                }
            }
        }
    }
}

/// **The empty squares, in order.** `empties` lists exactly the board's empty squares, each
/// once, in row-major order.
pub proof fn lemma_empties_are_the_empty_squares(g: Grid)
    ensures
        forall|j: int|
            0 <= j < empties(g).len() ==> {
                let p = #[trigger] empties(g)[j];
                p.0 < 4 && p.1 < 4 && g[p.0 as int][p.1 as int] == 0
            },
        forall|i: int, j: int| 0 <= i < j < empties(g).len() ==> rank(empties(g)[i]) < rank(empties(g)[j]),
        forall|r: int, c: int|
            0 <= r < 4 && 0 <= c < 4 && g[r][c] == 0 ==> exists|j: int|
                0 <= j < empties(g).len() && #[trigger] empties(g)[j] == (r as usize, c as usize),
{
    lemma_empties_upto_order(g, 16);
    assert forall|r: int, c: int| 0 <= r < 4 && 0 <= c < 4 && g[r][c] == 0 implies exists|j: int|
        0 <= j < empties(g).len() && #[trigger] empties(g)[j] == (r as usize, c as usize) by {
        assert(4 * r + c < 16);
        assert(g[r][c] == 0);
        let j = choose|j: int| 0 <= j < empties_upto(g, 16).len() && #[trigger] empties_upto(g, 16)[j] == (r as usize, c as usize);
        assert(empties(g)[j] == (r as usize, c as usize));
    }
}

/// **A spawn fills the square the draw picks.** On a board with an empty square, the tile goes
/// on the empty square (in row-major order) whose position among the empty squares is the
/// first draw modulo how many there are, and it is a 2 or a 4; every other square is kept, and
/// the generator moves on by two draws.
pub proof fn lemma_spawn_fills_the_drawn_square(g: Grid, state: u64, d: Difficulty)
    requires
        exists|r: int, c: int| 0 <= r < 4 && 0 <= c < 4 && g[r][c] == 0,
    ensures
        empties(g).len() > 0,
        spawned(g, state, d).2 == Some(
            empties(g)[((xorshift(state) as usize) as int) % (empties(g).len() as int)],
        ),
        ({
            let p = empties(g)[((xorshift(state) as usize) as int) % (empties(g).len() as int)];
            let after = spawned(g, state, d).0;
            &&& g[p.0 as int][p.1 as int] == 0
            &&& (after[p.0 as int][p.1 as int] == 2 || after[p.0 as int][p.1 as int] == 4)
            &&& forall|r: int, c: int|
                0 <= r < 4 && 0 <= c < 4 && (r, c) != (p.0 as int, p.1 as int) ==> after[r][c] == g[r][c]
        }),
        spawned(g, state, d).1 == xorshift(xorshift(state)),
{
    lemma_empties_are_the_empty_squares(g);
    let (r, c) = choose|r: int, c: int| 0 <= r < 4 && 0 <= c < 4 && g[r][c] == 0;
    let j = choose|j: int| 0 <= j < empties(g).len() && #[trigger] empties(g)[j] == (r as usize, c as usize);
    let e = empties(g);
    let k = ((xorshift(state) as usize) as int) % (e.len() as int);
    let p = e[k];
    assert(p.0 < 4 && p.1 < 4 && g[p.0 as int][p.1 as int] == 0);
    lemma_set_square(g, p, spawn_value(d, xorshift(xorshift(state))));
}

/// Draws with different residues fill different squares: the spawn's square is a one-to-one
/// function of the first draw modulo the number of empty squares.
pub proof fn lemma_spawn_squares_differ(g: Grid, s1: u64, s2: u64, d: Difficulty)
    requires
        exists|r: int, c: int| 0 <= r < 4 && 0 <= c < 4 && g[r][c] == 0,
        ((xorshift(s1) as usize) as int) % (empties(g).len() as int) != ((xorshift(s2) as usize) as int)
            % (empties(g).len() as int),
    ensures
        spawned(g, s1, d).2 != spawned(g, s2, d).2,
{
    lemma_spawn_fills_the_drawn_square(g, s1, d);
    lemma_spawn_fills_the_drawn_square(g, s2, d);
    lemma_empties_are_the_empty_squares(g);
    let n = empties(g).len() as int;
    let a = ((xorshift(s1) as usize) as int) % n;
    let b = ((xorshift(s2) as usize) as int) % n;
    if a < b {
        assert(rank(empties(g)[a]) < rank(empties(g)[b]));
    } else {
        assert(rank(empties(g)[b]) < rank(empties(g)[a]));
    }
}

/// Place a new tile: a 2, or sometimes a 4, on an empty square picked at random.
pub fn spawn_tile(grid: &mut Grid, rng: &mut Rng, difficulty: Difficulty) -> (res: Option<(usize, usize)>)
    ensures
        (*final(grid), final(rng).state, res) == spawned(*old(grid), old(rng).state, difficulty),
        res matches Some(p) ==> p.0 < 4 && p.1 < 4 && old(grid)[p.0 as int][p.1 as int] == 0,
{
    let mut empty: Vec<(usize, usize)> = Vec::new();
    let mut r: usize = 0;
    while r < N
        invariant
            0 <= r <= 4,
            empty@ == empties_upto(*grid, 4 * r),
        decreases N - r,
    {
        let mut c: usize = 0;
        while c < N
            invariant
                0 <= r < 4,
                0 <= c <= 4,
                empty@ == empties_upto(*grid, 4 * r + c),
            decreases N - c,
        {
            assert((4 * r + c) / 4 == r && (4 * r + c) % 4 == c);
            if grid[r][c] == 0 {
                empty.push((r, c));
            }
            c += 1;
        }
        r += 1;
    }
    proof {
        lemma_empties_upto(*grid, 16);
    }
    if empty.len() == 0 {
        return None;
    }
    let x: u64 = rng.next();
    let k: usize = (x as usize) % empty.len();
    let p: (usize, usize) = empty[k];
    let four: bool = rng.unit_below(difficulty.four_odds());
    let ghost g0 = *grid;
    let v: u32 = if four {
        4
    } else {
        2
    };
    grid[p.0][p.1] = v;
    proof {
        lemma_set_square(g0, p, v);
        lemma_grid_ext(*grid, set_square(g0, p, v));
    }
    Some(p)
}

// ---------------------------------------------------------------------------------------------
// The game
// ---------------------------------------------------------------------------------------------

#[derive(Clone, Copy, PartialEq, Eq, Debug, Structural)]
pub enum Phase {
    Idle,
    Slide,
    Pop,
}

/// The discrete part of the move animation: what is sliding, what the board becomes, which
/// squares pop, and whether the slide lands the move. Its clock runs in the page.
pub struct Anim {
    pub phase: Phase,
    pub slides: Vec<Slide>,
    pub next: Grid,
    /// Merged results, then the spawned tiles.
    pub pops: Vec<(usize, usize)>,
    pub spawn: Option<(usize, usize)>,
    /// Whether this slide lands the move (score and spawn) or just returns the tiles to where
    /// they were (a provisional drag released under the commit threshold).
    pub commit: bool,
}

/// What a move did that the page reacts to (haptics, cards).
#[derive(Clone, Copy, PartialEq, Eq, Debug, Structural)]
pub enum Happening {
    /// A move landed; the largest tile it made (0 when nothing merged).
    Moved(u32),
    Won,
    GameOver,
}

/// How a drag ends, decided by how far the finger took the provisional move: past the commit
/// threshold the move lands, short of it the tiles slide back, and from where it started
/// nothing moves at all.
#[derive(Clone, Copy, PartialEq, Eq, Debug, Structural)]
pub enum Release {
    Commit,
    Back,
    Still,
}

pub struct Game {
    pub grid: Grid,
    pub score: i64,
    pub best: i64,
    pub won: bool,
    pub game_over: bool,
    pub anim: Anim,
    pub rng: Rng,
    /// The provisional move under the current drag; `None` also when the drag's direction has
    /// no legal move.
    pub pending: Option<Pending>,
    pub difficulty: Difficulty,
    /// The board and score before the last committed move (Easy only), and the undos left.
    pub undo: Option<(Grid, i64)>,
    pub undos_left: i32,
    pub happenings: Vec<Happening>,
}

/// The durable subset of [`Game`]: the board and scoring. A save taken mid-slide stores the
/// settled (post-move) grid.
pub struct SaveState {
    pub grid: Grid,
    pub score: i64,
    pub best: i64,
    pub won: bool,
    pub difficulty: Difficulty,
    pub undo: Option<(Grid, i64)>,
    pub undos_left: i32,
    /// Taken mid-slide of a landing move: the board is the settled one, and the tiles that
    /// move would spawn are still owed.
    pub spawn_due: bool,
}

/// Whether some move is still possible by the game's own test: an empty square, or two equal
/// neighbors in a row or a column.
pub open spec fn has_move_left(g: Grid) -> bool {
    ||| exists|r: int, c: int| in_board(r, c) && g[r][c] == 0
    ||| exists|r: int, c: int| #![trigger g[r][c]] 0 <= r < 4 && 0 <= c < 3 && g[r][c] == g[r][c + 1]
    ||| exists|r: int, c: int| #![trigger g[r][c]] 0 <= r < 3 && 0 <= c < 4 && g[r][c] == g[r + 1][c]
}

/// The largest value `next` holds on the squares `pops`, 0 for none.
pub open spec fn biggest(next: Grid, pops: Seq<(usize, usize)>) -> u32
    decreases pops.len(),
{
    if pops.len() == 0 {
        0
    } else {
        let rest = biggest(next, pops.drop_last());
        let v = next[pops.last().0 as int][pops.last().1 as int];
        if v > rest {
            v
        } else {
            rest
        }
    }
}

pub open spec fn reaches_2048(g: Grid) -> bool {
    exists|r: int, c: int| in_board(r, c) && g[r][c] >= 2048
}


/// The board with every square empty.
pub open spec fn zeros() -> Grid {
    spec_array_fill_for_copy_type::<[u32; N], N>(spec_array_fill_for_copy_type::<u32, N>(0u32))
}

proof fn lemma_zeros()
    ensures
        forall|r: int, c: int| in_board(r, c) ==> #[trigger] zeros()[r][c] == 0,
{
    broadcast use vstd::array::group_array_axioms;

    assert forall|r: int, c: int| in_board(r, c) implies #[trigger] zeros()[r][c] == 0 by {
        assert(zeros()[r] == zeros()@[r]);
        let row = spec_array_fill_for_copy_type::<u32, N>(0u32);
        assert(row[c] == row@[c]);
    }
}

fn empty_grid() -> (g: Grid)
    ensures
        g == zeros(),
{
    let g: Grid = [[0u32; N]; N];
    proof {
        lemma_zeros();
        assert forall|r: int, c: int| in_board(r, c) implies g[r][c] == zeros()[r][c] by {
            assert(g[r][c] == 0);
        }
        lemma_grid_ext(g, zeros());
    }
    g
}

/// The board two spawns make on `g`, and the generator after them.
pub open spec fn two_spawns(g: Grid, state: u64, d: Difficulty) -> (Grid, u64) {
    let first = spawned(g, state, d);
    let second = spawned(first.0, first.1, d);
    (second.0, second.1)
}

/// The slides of a provisional move run backwards: each tile returns to where it started.
pub open spec fn reversed(slides: Seq<Slide>) -> Seq<Slide> {
    slides.map_values(|s: Slide| Slide { value: s.value, from: s.to, to: s.from })
}

pub open spec fn max_i64(a: i64, b: i64) -> i64 {
    if a > b {
        a
    } else {
        b
    }
}

/// Everything but the board and the generator kept.
pub open spec fn keeps_all_but_board(a: Game, b: Game) -> bool {
    &&& a.score == b.score
    &&& a.best == b.best
    &&& a.won == b.won
    &&& a.game_over == b.game_over
    &&& a.anim == b.anim
    &&& a.pending == b.pending
    &&& a.difficulty == b.difficulty
    &&& a.undo == b.undo
    &&& a.undos_left == b.undos_left
    &&& a.happenings == b.happenings
}

/// Every square listed lies on the board.
pub open spec fn pops_on_board(pops: Seq<(usize, usize)>) -> bool {
    forall|j: int| 0 <= j < pops.len() ==> pops[j].0 < 4 && pops[j].1 < 4
}

/// `b` is `a` after committing the move `p`.
pub open spec fn committed(a: Game, p: Pending, b: Game) -> bool {
    &&& b.undo == (if a.difficulty == Difficulty::Easy && a.undos_left > 0 {
        Some((a.grid, a.score))
    } else {
        a.undo
    })
    &&& b.happenings@ == a.happenings@.push(Happening::Moved(biggest(p.next, p.pops@)))
    &&& b.score == a.score + p.gained
    &&& b.best == max_i64(a.best, b.score)
    &&& b.anim == (Anim {
        phase: Phase::Slide,
        slides: p.slides,
        next: p.next,
        pops: p.pops,
        spawn: None,
        commit: true,
    })
    &&& b.grid == a.grid
    &&& b.won == a.won
    &&& b.game_over == a.game_over
    &&& b.rng == a.rng
    &&& b.difficulty == a.difficulty
    &&& b.undos_left == a.undos_left
}

/// A square as a sequence of zero or one squares.
pub open spec fn opt_seq(o: Option<(usize, usize)>) -> Seq<(usize, usize)> {
    match o {
        Some(p) => seq![p],
        None => seq![],
    }
}

/// A saved undo count brought into range.
pub open spec fn clamp_undos(n: i32) -> i32 {
    if n < 0 {
        0
    } else if n > UNDOS {
        UNDOS
    } else {
        n
    }
}

pub open spec fn all_empty(g: Grid) -> bool {
    forall|r: int, c: int| in_board(r, c) ==> g[r][c] == 0
}

/// Whether some square reaches 2048.
fn reaches(g: &Grid) -> (r: bool)
    ensures
        r == reaches_2048(*g),
{
    let mut r: usize = 0;
    while r < N
        invariant
            0 <= r <= 4,
            forall|i: int, j: int| 0 <= i < r && 0 <= j < 4 ==> g[i][j] < 2048,
        decreases N - r,
    {
        let mut c: usize = 0;
        while c < N
            invariant
                0 <= r < 4,
                0 <= c <= 4,
                forall|i: int, j: int| 0 <= i < r && 0 <= j < 4 ==> g[i][j] < 2048,
                forall|j: int| 0 <= j < c ==> g[r as int][j] < 2048,
            decreases N - c,
        {
            if g[r][c] >= 2048 {
                assert(in_board(r as int, c as int));
                return true;
            }
            c += 1;
        }
        r += 1;
    }
    false
}

/// Whether every square is empty.
fn is_empty(g: &Grid) -> (r: bool)
    ensures
        r == all_empty(*g),
{
    let mut r: usize = 0;
    while r < N
        invariant
            0 <= r <= 4,
            forall|i: int, j: int| 0 <= i < r && 0 <= j < 4 ==> g[i][j] == 0,
        decreases N - r,
    {
        let mut c: usize = 0;
        while c < N
            invariant
                0 <= r < 4,
                0 <= c <= 4,
                forall|i: int, j: int| 0 <= i < r && 0 <= j < 4 ==> g[i][j] == 0,
                forall|j: int| 0 <= j < c ==> g[r as int][j] == 0,
            decreases N - c,
        {
            if g[r][c] != 0 {
                assert(in_board(r as int, c as int));
                return false;
            }
            c += 1;
        }
        r += 1;
    }
    true
}

/// Everything but the reports kept.
pub open spec fn keeps_all_but_happenings(a: Game, b: Game) -> bool {
    &&& a.grid == b.grid
    &&& a.score == b.score
    &&& a.best == b.best
    &&& a.won == b.won
    &&& a.game_over == b.game_over
    &&& a.anim == b.anim
    &&& a.rng == b.rng
    &&& a.pending == b.pending
    &&& a.difficulty == b.difficulty
    &&& a.undo == b.undo
    &&& a.undos_left == b.undos_left
}

/// Everything but the animation and the pending move kept.
pub open spec fn keeps_all_but_anim(a: Game, b: Game) -> bool {
    &&& a.grid == b.grid
    &&& a.score == b.score
    &&& a.best == b.best
    &&& a.won == b.won
    &&& a.game_over == b.game_over
    &&& a.rng == b.rng
    &&& a.difficulty == b.difficulty
    &&& a.undo == b.undo
    &&& a.undos_left == b.undos_left
    &&& a.happenings == b.happenings
}

/// `b` is `a` after a drag on the move `p` was released short of the commit threshold: the
/// tiles start sliding back to where they were, and the board is left as it is.
pub open spec fn released_back(a: Game, p: Pending, b: Game) -> bool {
    &&& b.anim == (Anim {
        phase: Phase::Slide,
        slides: b.anim.slides,
        next: a.grid,
        pops: b.anim.pops,
        spawn: None,
        commit: false,
    })
    &&& b.anim.slides@ =~= reversed(p.slides@)
    &&& b.anim.pops@.len() == 0
    &&& keeps_all_but_anim(b, a)
}

/// `b` is `a` once a landing slide ended: the moved board in place, the new tiles spawned (two
/// on Hard) and joining the pop, and the first 2048 winning.
pub open spec fn slide_landed(a: Game, b: Game) -> bool {
    let first = spawned(a.anim.next, a.rng.state, a.difficulty);
    let second = spawned(first.0, first.1, a.difficulty);
    let hard = a.difficulty == Difficulty::Hard;
    let won_now = !a.won && reaches_2048(b.grid);
    &&& b.grid == if hard {
        second.0
    } else {
        first.0
    }
    &&& b.rng.state == if hard {
        second.1
    } else {
        first.1
    }
    &&& b.anim.spawn == first.2
    &&& b.anim.pops@ =~= a.anim.pops@ + opt_seq(first.2) + if hard {
        opt_seq(second.2)
    } else {
        seq![]
    }
    &&& b.anim.phase == Phase::Pop
    &&& b.won == (a.won || won_now)
    &&& b.happenings@ =~= if won_now {
        a.happenings@.push(Happening::Won)
    } else {
        a.happenings@
    }
    &&& b.anim.slides == a.anim.slides
    &&& b.anim.next == a.anim.next
    &&& b.anim.commit == a.anim.commit
    &&& b.score == a.score
    &&& b.best == a.best
    &&& b.game_over == a.game_over
    &&& b.pending == a.pending
    &&& b.difficulty == a.difficulty
    &&& b.undo == a.undo
    &&& b.undos_left == a.undos_left
}

/// `b` is `a` once a slide back ended: idle again, the board never having changed.
pub open spec fn slide_returned(a: Game, b: Game) -> bool {
    &&& b.anim.phase == Phase::Idle
    &&& b.anim.pops@.len() == 0
    &&& b.anim.slides == a.anim.slides
    &&& b.anim.next == a.anim.next
    &&& b.anim.spawn == a.anim.spawn
    &&& b.anim.commit == a.anim.commit
    &&& keeps_all_but_anim(b, a)
    &&& b.pending == a.pending
}

/// `b` is `a` once the pop ended: idle, and over if no move is left.
pub open spec fn pop_settled(a: Game, b: Game) -> bool {
    &&& b.anim.phase == Phase::Idle
    &&& b.anim.pops@.len() == 0
    &&& b.anim.slides == a.anim.slides
    &&& b.anim.next == a.anim.next
    &&& b.anim.spawn == a.anim.spawn
    &&& b.anim.commit == a.anim.commit
    &&& b.game_over == (a.game_over || !has_move_left(a.grid))
    &&& b.happenings@ =~= if has_move_left(a.grid) {
        a.happenings@
    } else {
        a.happenings@.push(Happening::GameOver)
    }
    &&& b.grid == a.grid
    &&& b.score == a.score
    &&& b.best == a.best
    &&& b.won == a.won
    &&& b.rng == a.rng
    &&& b.pending == a.pending
    &&& b.difficulty == a.difficulty
    &&& b.undo == a.undo
    &&& b.undos_left == a.undos_left
}

/// `b` is `a` after an undo: the kept board and score back, one undo fewer, nothing left to
/// take back until the next move.
pub open spec fn undone(a: Game, b: Game) -> bool {
    &&& b.grid == a.undo.unwrap().0
    &&& b.score == a.undo.unwrap().1
    &&& b.undos_left == a.undos_left - 1
    &&& !b.game_over
    &&& b.undo is None
    &&& b.pending is None
    &&& b.best == a.best
    &&& b.won == a.won
    &&& b.anim == a.anim
    &&& b.rng == a.rng
    &&& b.difficulty == a.difficulty
    &&& b.happenings == a.happenings
}

/// `s` is what a save of `g` holds: a live game's settled board (the post-move board mid-slide)
/// and scoring; for a finished one, a fresh game drawn from `fresh_seed` keeping the best.
pub open spec fn saved(g: Game, fresh_seed: u64, s: SaveState) -> bool {
    &&& g.game_over ==> {
        &&& s.grid == two_spawns(zeros(), fresh_seed, Difficulty::Normal).0
        &&& s.score == 0
        &&& s.best == g.best
        &&& !s.won
        &&& s.difficulty == Difficulty::Normal
        &&& s.undo is None
        &&& s.undos_left == UNDOS
        &&& !s.spawn_due
    }
    &&& !g.game_over ==> {
        &&& s.grid == if g.anim.phase == Phase::Slide {
            g.anim.next
        } else {
            g.grid
        }
        &&& s.score == g.score
        &&& s.best == g.best
        &&& s.won == g.won
        &&& s.difficulty == g.difficulty
        &&& s.undo == g.undo
        &&& s.undos_left == g.undos_left
        &&& s.spawn_due == (g.anim.phase == Phase::Slide && g.anim.commit)
    }
}

/// `b` is `a` rebuilt from the save `s`: board and scores back and the animation idle; an empty
/// board gets its two tiles, a save taken mid-slide gets the spawn its move owed, and a board
/// then left with no move starts fresh on the same difficulty.
pub open spec fn restored(a: Game, s: SaveState, b: Game) -> bool {
    &&& b.best == max_i64(s.best, s.score)
    &&& b.difficulty == s.difficulty
    &&& !b.game_over
    &&& b.anim.phase == Phase::Idle
    &&& b.anim.slides == a.anim.slides
    &&& b.anim.next == a.anim.next
    &&& b.anim.pops == a.anim.pops
    &&& b.anim.spawn == a.anim.spawn
    &&& b.anim.commit == a.anim.commit
    &&& b.happenings == a.happenings
    &&& all_empty(s.grid) ==> {
        &&& (b.grid, b.rng.state) == two_spawns(s.grid, a.rng.state, s.difficulty)
        &&& b.score == s.score
        &&& b.won == s.won
        &&& b.undo == s.undo
        &&& b.undos_left == clamp_undos(s.undos_left)
        &&& b.pending == a.pending
    }
    &&& !all_empty(s.grid) ==> {
        let owed = settled_board(s.grid, a.rng.state, s.difficulty, s.spawn_due);
        &&& has_move_left(owed.0) ==> {
            &&& b.grid == owed.0
            &&& b.rng.state == owed.1
            &&& b.score == s.score
            &&& b.won == (s.won || (s.spawn_due && reaches_2048(owed.0)))
            &&& b.undo == s.undo
            &&& b.undos_left == clamp_undos(s.undos_left)
            &&& b.pending == a.pending
        }
        &&& !has_move_left(owed.0) ==> {
            &&& (b.grid, b.rng.state) == two_spawns(zeros(), owed.1, s.difficulty)
            &&& b.score == 0
            &&& !b.won
            &&& b.undo is None
            &&& b.undos_left == UNDOS
            &&& b.pending is None
        }
    }
}

/// A saved non-empty board as restored: with a spawn owed, the tiles the interrupted move
/// would have spawned (two on Hard) drawn from the generator at `state`; otherwise the board
/// as saved. The board and the generator after.
pub open spec fn settled_board(g: Grid, state: u64, d: Difficulty, spawn_due: bool) -> (Grid, u64) {
    if spawn_due {
        let first = spawned(g, state, d);
        let second = spawned(first.0, first.1, d);
        if d == Difficulty::Hard {
            (second.0, second.1)
        } else {
            (first.0, first.1)
        }
    } else {
        (g, state)
    }
}

/// Restoring a save gives the game back: for a live, settled game whose board is neither empty
/// nor stuck, the board, score, best, win, difficulty and undo state all come back as they were.
pub proof fn lemma_save_then_restore_gives_the_game_back(g: Game, fresh_seed: u64, s: SaveState, t0: Game, t1: Game)
    requires
        !g.game_over,
        g.anim.phase == Phase::Idle,
        !all_empty(g.grid),
        has_move_left(g.grid),
        g.score <= g.best,
        0 <= g.undos_left <= UNDOS,
        saved(g, fresh_seed, s),
        restored(t0, s, t1),
    ensures
        t1.grid == g.grid,
        t1.score == g.score,
        t1.best == g.best,
        t1.won == g.won,
        t1.difficulty == g.difficulty,
        t1.undo == g.undo,
        t1.undos_left == g.undos_left,
        !t1.game_over,
{
}

/// A save taken mid-slide restores the board that slide would have landed: restored into a
/// game drawing from the same generator state, the settled board gets exactly the tiles the
/// finished slide would have spawned, with the score and undo state of the move.
pub proof fn lemma_mid_slide_save_lands_the_move(g: Game, fresh_seed: u64, s: SaveState, t0: Game, t1: Game, g2: Game)
    requires
        !g.game_over,
        g.anim.phase == Phase::Slide,
        g.anim.commit,
        !all_empty(g.anim.next),
        0 <= g.undos_left <= UNDOS,
        saved(g, fresh_seed, s),
        restored(t0, s, t1),
        t0.rng.state == g.rng.state,
        slide_landed(g, g2),
        has_move_left(g2.grid),
    ensures
        t1.grid == g2.grid,
        t1.rng.state == g2.rng.state,
        t1.won == g2.won,
        t1.score == g2.score,
        t1.undo == g2.undo,
        t1.undos_left == g2.undos_left,
{
}

/// A drag released short of the threshold changes nothing: once the tiles have slid back the
/// board, the score and what undo would restore are as they were, and the game is idle.
pub proof fn lemma_cancelled_release_changes_nothing(g0: Game, p: Pending, g1: Game, g2: Game)
    requires
        released_back(g0, p, g1),
        slide_returned(g1, g2),
    ensures
        g2.grid == g0.grid,
        g2.score == g0.score,
        g2.best == g0.best,
        g2.won == g0.won,
        g2.undo == g0.undo,
        g2.undos_left == g0.undos_left,
        g2.anim.phase == Phase::Idle,
{
}

/// On Easy with an undo left, a move that lands and settles can be taken back, and taking it
/// back restores the board and the score it started from, using up one undo.
pub proof fn lemma_undo_takes_back_the_move(g0: Game, p: Pending, g1: Game, g2: Game, g3: Game, g4: Game)
    requires
        g0.difficulty == Difficulty::Easy,
        g0.undos_left > 0,
        committed(g0, p, g1),
        slide_landed(g1, g2),
        pop_settled(g2, g3),
    ensures
        g3.difficulty == Difficulty::Easy && g3.undos_left > 0 && g3.anim.phase == Phase::Idle
            && g3.undo is Some,
        undone(g3, g4) ==> g4.grid == g0.grid && g4.score == g0.score && g4.undos_left
            == g0.undos_left - 1,
{
}

proof fn lemma_line_pops_on_board(t: Seq<(u32, usize)>, slot: int, dir: u8, i: int)
    requires
        0 <= slot,
        slot + t.len() <= 4,
        0 <= i < 4,
    ensures
        pops_on_board(line_pops(t, slot, dir, i)),
    decreases t.len(),
{
    if t.len() >= 2 && t[0].0 == t[1].0 {
        lemma_line_pops_on_board(t.skip(2), slot + 1, dir, i);
    } else if t.len() > 0 {
        lemma_line_pops_on_board(t.skip(1), slot + 1, dir, i);
    }
}

proof fn lemma_pops_upto_on_board(g: Grid, dir: u8, n: int)
    requires
        0 <= n <= 4,
    ensures
        pops_on_board(pops_upto(g, dir, n)),
    decreases n,
{
    if n > 0 {
        lemma_pops_upto_on_board(g, dir, n - 1);
        lemma_tiles(line_of(g, dir, n - 1));
        lemma_line_pops_on_board(tiles(line_of(g, dir, n - 1)), 0, dir, n - 1);
    }
}

/// The merge squares of a computed move lie on the board.
pub proof fn lemma_describes_on_board(p: Pending, g: Grid, dir: u8)
    requires
        describes(p, g, dir),
    ensures
        pops_on_board(p.pops@),
{
    lemma_pops_upto_on_board(g, dir, 4);
}

impl Game {
    /// A fresh game on Normal: two tiles on an empty board, drawn from `seed` (gamekit's seed).
    pub fn new(seed: u64) -> (g: Game)
        ensures
            (g.grid, g.rng.state) == two_spawns(zeros(), seed, Difficulty::Normal),
            g.score == 0 && g.best == 0 && !g.won && !g.game_over,
            g.anim.phase == Phase::Idle && g.anim.slides@.len() == 0 && g.anim.pops@.len() == 0,
            g.anim.spawn is None && g.anim.commit && g.anim.next == zeros(),
            g.pending is None && g.difficulty == Difficulty::Normal && g.undo is None,
            g.undos_left == UNDOS && g.happenings@.len() == 0,
    {
        let mut g = Game {
            grid: empty_grid(),
            score: 0,
            best: 0,
            won: false,
            game_over: false,
            anim: Anim {
                phase: Phase::Idle,
                slides: Vec::new(),
                next: empty_grid(),
                pops: Vec::new(),
                spawn: None,
                commit: true,
            },
            rng: Rng::new(seed),
            pending: None,
            difficulty: Difficulty::Normal,
            undo: None,
            undos_left: UNDOS,
            happenings: Vec::new(),
        };
        g.spawn();
        g.spawn();
        g
    }

    /// Place a new tile (see [`spawn_tile`]).
    pub fn spawn(&mut self) -> (res: Option<(usize, usize)>)
        ensures
            (final(self).grid, final(self).rng.state, res) == spawned(
                old(self).grid,
                old(self).rng.state,
                old(self).difficulty,
            ),
            keeps_all_but_board(*final(self), *old(self)),
    {
        spawn_tile(&mut self.grid, &mut self.rng, self.difficulty)
    }

    /// Take back the last committed move (Easy grants three per game).
    pub fn undo(&mut self) -> (done: bool)
        ensures
            done == (old(self).difficulty == Difficulty::Easy && old(self).undos_left > 0
                && old(self).anim.phase == Phase::Idle && old(self).undo is Some),
            !done ==> *final(self) == *old(self),
            done ==> undone(*old(self), *final(self)),
    {
        if !self.difficulty.undo_allowed() || self.undos_left <= 0 || self.anim.phase != Phase::Idle {
            return false;
        }
        let taken = self.undo.take();
        match taken {
            None => false,
            Some(saved) => {
                self.clear_preview();
                self.grid = saved.0;
                self.score = saved.1;
                self.undos_left = self.undos_left - 1;
                self.game_over = false;
                true
            },
        }
    }

    pub fn can_undo(&self) -> (r: bool)
        ensures
            r == (self.difficulty == Difficulty::Easy && self.undos_left > 0 && self.undo is Some),
    {
        self.difficulty.undo_allowed() && self.undos_left > 0 && self.undo.is_some()
    }

    /// Track a drag in progress: (re)compute the provisional move for `dir` unless the one
    /// pending already goes that way. Nothing is applied until [`Game::release_preview`]. False
    /// (and nothing touched) while an animation runs or the game is over; the page sets the
    /// finger's progress only when this accepts.
    pub fn preview(&mut self, dir: u8) -> (accepted: bool)
        requires
            small_tiles(old(self).grid),
        ensures
            accepted == (old(self).anim.phase == Phase::Idle && !old(self).game_over),
            !accepted ==> *final(self) == *old(self),
            accepted ==> {
                &&& (old(self).pending matches Some(p) && p.dir == dir) ==> final(self).pending
                    == old(self).pending
                &&& !(old(self).pending matches Some(p) && p.dir == dir) ==> {
                    &&& (final(self).pending is None <==> !changes(old(self).grid, dir))
                    &&& (final(self).pending matches Some(p) ==> describes(p, old(self).grid, dir))
                }
                &&& final(self).grid == old(self).grid
                &&& final(self).score == old(self).score
                &&& final(self).best == old(self).best
                &&& final(self).won == old(self).won
                &&& final(self).game_over == old(self).game_over
                &&& final(self).anim == old(self).anim
                &&& final(self).rng == old(self).rng
                &&& final(self).difficulty == old(self).difficulty
                &&& final(self).undo == old(self).undo
                &&& final(self).undos_left == old(self).undos_left
                &&& final(self).happenings == old(self).happenings
            },
    {
        if self.anim.phase != Phase::Idle || self.game_over {
            return false;
        }
        let same: bool = match &self.pending {
            Some(p) => p.dir == dir,
            None => false,
        };
        if !same {
            self.pending = compute_move(&self.grid, dir);
        }
        true
    }

    /// Drop the provisional move.
    pub fn clear_preview(&mut self)
        ensures
            final(self).pending is None,
            final(self).grid == old(self).grid,
            final(self).score == old(self).score,
            final(self).best == old(self).best,
            final(self).won == old(self).won,
            final(self).game_over == old(self).game_over,
            final(self).anim == old(self).anim,
            final(self).rng == old(self).rng,
            final(self).difficulty == old(self).difficulty,
            final(self).undo == old(self).undo,
            final(self).undos_left == old(self).undos_left,
            final(self).happenings == old(self).happenings,
    {
        self.pending = None;
    }

    /// Finger lifted: a committed release lands the previewed move (score, merge pops, and the
    /// new tile once the slide ends); one short of the threshold animates the tiles back where
    /// they came from; one that never left the start just drops it. Without a pending move
    /// nothing happens.
    pub fn release_preview(&mut self, how: Release)
        requires
            old(self).pending matches Some(p) ==> i64::MIN <= old(self).score + p.gained
                <= i64::MAX && pops_on_board(p.pops@),
        ensures
            old(self).pending is None ==> *final(self) == *old(self),
            old(self).pending matches Some(p) ==> {
                &&& final(self).pending is None
                &&& how == Release::Commit ==> committed(*old(self), p, *final(self))
                &&& how == Release::Back ==> released_back(*old(self), p, *final(self))
                &&& how == Release::Still ==> {
                    &&& final(self).anim == old(self).anim
                    &&& keeps_all_but_anim(*final(self), *old(self))
                }
            },
    {
        let taken = self.pending.take();
        let p = match taken {
            None => return,
            Some(p) => p,
        };
        match how {
            Release::Commit => self.commit_pending(p),
            Release::Back => {
                let mut slides: Vec<Slide> = Vec::new();
                let mut k: usize = 0;
                while k < p.slides.len()
                    invariant
                        0 <= k <= p.slides@.len(),
                        slides@ == reversed(p.slides@.take(k as int)),
                    decreases p.slides.len() - k,
                {
                    let sl: Slide = p.slides[k];
                    slides.push(Slide { value: sl.value, from: sl.to, to: sl.from });
                    assert(p.slides@.take(k + 1) =~= p.slides@.take(k as int).push(sl));
                    assert(slides@ =~= reversed(p.slides@.take(k + 1)));
                    k += 1;
                }
                assert(p.slides@.take(p.slides@.len() as int) =~= p.slides@);
                self.anim = Anim {
                    phase: Phase::Slide,
                    slides,
                    next: self.grid,
                    pops: Vec::new(),
                    spawn: None,
                    commit: false,
                };
            },
            Release::Still => {},
        }
    }

    /// Land `p`: keep the board for undo where the difficulty grants one, report the largest
    /// tile it made, score it, and start its slide.
    pub fn commit_pending(&mut self, p: Pending)
        requires
            i64::MIN <= old(self).score + p.gained <= i64::MAX,
            pops_on_board(p.pops@),
        ensures
            committed(*old(self), p, *final(self)),
            final(self).pending == old(self).pending,
    {
        if self.difficulty.undo_allowed() && self.undos_left > 0 {
            self.undo = Some((self.grid, self.score));
        }
        let mut big: u32 = 0;
        let mut k: usize = 0;
        while k < p.pops.len()
            invariant
                0 <= k <= p.pops@.len(),
                forall|j: int| 0 <= j < p.pops@.len() ==> p.pops@[j].0 < 4 && p.pops@[j].1 < 4,
                big == biggest(p.next, p.pops@.take(k as int)),
            decreases p.pops.len() - k,
        {
            let at: (usize, usize) = p.pops[k];
            let v: u32 = p.next[at.0][at.1];
            assert(p.pops@.take(k + 1).drop_last() =~= p.pops@.take(k as int));
            if v > big {
                big = v;
            }
            k += 1;
        }
        assert(p.pops@.take(p.pops@.len() as int) =~= p.pops@);
        self.happenings.push(Happening::Moved(big));
        self.score = self.score + p.gained;
        if self.score > self.best {
            self.best = self.score;
        }
        self.anim = Anim {
            phase: Phase::Slide,
            slides: p.slides,
            next: p.next,
            pops: p.pops,
            spawn: None,
            commit: true,
        };
    }

    /// Whether a move is still possible: an empty square, or two equal neighbors.
    pub fn any_moves_left(&self) -> (r: bool)
        ensures
            r == has_move_left(self.grid),
    {
        let mut r: usize = 0;
        while r < N
            invariant
                0 <= r <= 4,
                forall|i: int, j: int| #![trigger self.grid[i][j]] 0 <= i < r && 0 <= j < 4 ==> self.grid[i][j] != 0,
                forall|i: int, j: int| #![trigger self.grid[i][j]] 0 <= i < r && 0 <= j < 3 ==> self.grid[i][j] != self.grid[i][j + 1],
                forall|i: int, j: int| #![trigger self.grid[i][j]]
                    0 <= i < r && i < 3 && 0 <= j < 4 ==> self.grid[i][j] != self.grid[i + 1][j],
            decreases N - r,
        {
            let mut c: usize = 0;
            while c < N
                invariant
                    0 <= r < 4,
                    0 <= c <= 4,
                    forall|i: int, j: int| #![trigger self.grid[i][j]] 0 <= i < r && 0 <= j < 4 ==> self.grid[i][j] != 0,
                    forall|i: int, j: int| #![trigger self.grid[i][j]]
                        0 <= i < r && 0 <= j < 3 ==> self.grid[i][j] != self.grid[i][j + 1],
                    forall|i: int, j: int| #![trigger self.grid[i][j]]
                        0 <= i < r && i < 3 && 0 <= j < 4 ==> self.grid[i][j] != self.grid[i + 1][j],
                    forall|j: int| #![trigger self.grid[r as int][j]] 0 <= j < c ==> self.grid[r as int][j] != 0,
                    forall|j: int| #![trigger self.grid[r as int][j]] 0 <= j < c && j < 3 ==> self.grid[r as int][j] != self.grid[r as int][j + 1],
                    forall|j: int| #![trigger self.grid[r as int][j]]
                        0 <= j < c && r < 3 ==> self.grid[r as int][j] != self.grid[r + 1][j],
                decreases N - c,
            {
                if self.grid[r][c] == 0 {
                    assert(in_board(r as int, c as int));
                    return true;
                }
                if c + 1 < N && self.grid[r][c] == self.grid[r][c + 1] {
                    return true;
                }
                if r + 1 < N && self.grid[r][c] == self.grid[r + 1][c] {
                    return true;
                }
                c += 1;
            }
            r += 1;
        }
        proof {
            assert(!(exists|i: int, j: int| in_board(i, j) && self.grid[i][j] == 0));
        }
        false
    }

    /// A new game on `difficulty`: undos restored, an empty board with two tiles, no score;
    /// the best score stays.
    pub fn restart(&mut self, difficulty: Difficulty)
        ensures
            final(self).difficulty == difficulty,
            final(self).undo is None,
            final(self).undos_left == UNDOS,
            (final(self).grid, final(self).rng.state) == two_spawns(
                zeros(),
                old(self).rng.state,
                difficulty,
            ),
            final(self).score == 0,
            !final(self).won,
            !final(self).game_over,
            final(self).anim.phase == Phase::Idle,
            final(self).anim.slides == old(self).anim.slides,
            final(self).anim.next == old(self).anim.next,
            final(self).anim.pops == old(self).anim.pops,
            final(self).anim.spawn == old(self).anim.spawn,
            final(self).anim.commit == old(self).anim.commit,
            final(self).pending is None,
            final(self).best == old(self).best,
            final(self).happenings == old(self).happenings,
    {
        self.difficulty = difficulty;
        self.undo = None;
        self.undos_left = UNDOS;
        self.grid = empty_grid();
        self.score = 0;
        self.won = false;
        self.game_over = false;
        self.anim.phase = Phase::Idle;
        self.clear_preview();
        self.spawn();
        self.spawn();
    }

    /// Hand over what happened since the last call.
    pub fn take_happenings(&mut self) -> (taken: Vec<Happening>)
        ensures
            taken == old(self).happenings,
            final(self).happenings@.len() == 0,
            keeps_all_but_happenings(*final(self), *old(self)),
    {
        let mut taken: Vec<Happening> = Vec::new();
        std::mem::swap(&mut taken, &mut self.happenings);
        taken
    }

    /// The slide's time is up. A committed move lands: the settled board takes over and the new
    /// tiles spawn (two on Hard), joining the pop, and reaching 2048 the first time wins. A
    /// slide back just ends, the board never having changed.
    pub fn finish_slide(&mut self)
        requires
            old(self).anim.phase == Phase::Slide,
        ensures
            old(self).anim.commit ==> slide_landed(*old(self), *final(self)),
            !old(self).anim.commit ==> slide_returned(*old(self), *final(self)),
    {
        if self.anim.commit {
            self.grid = self.anim.next;
            let sp: Option<(usize, usize)> = self.spawn();
            self.anim.spawn = sp;
            if let Some(at) = sp {
                self.anim.pops.push(at);
            }
            if self.difficulty.tiles_per_spawn() == 2 {
                let sp2: Option<(usize, usize)> = self.spawn();
                if let Some(at) = sp2 {
                    self.anim.pops.push(at);
                }
            }
            if !self.won && reaches(&self.grid) {
                self.won = true;
                self.happenings.push(Happening::Won);
            }
            self.anim.phase = Phase::Pop;
        } else {
            self.anim.phase = Phase::Idle;
            self.anim.pops.clear();
        }
    }

    /// The pop's time is up: the board settles, and with no move left the game is over.
    pub fn finish_pop(&mut self)
        requires
            old(self).anim.phase == Phase::Pop,
        ensures
            pop_settled(*old(self), *final(self)),
    {
        self.anim.phase = Phase::Idle;
        self.anim.pops.clear();
        if !self.any_moves_left() {
            self.game_over = true;
            self.happenings.push(Happening::GameOver);
        }
    }

    /// Snapshot the durable state. Mid-slide the settled post-move board is the truth (the
    /// spawn that would follow is granted on restore). A finished game keeps only the best
    /// score: what is saved is a fresh game drawn from `fresh_seed`.
    pub fn save_state(&self, fresh_seed: u64) -> (s: SaveState)
        ensures
            saved(*self, fresh_seed, s),
    {
        if self.game_over {
            let g = Game::new(fresh_seed);
            return SaveState {
                grid: g.grid,
                score: g.score,
                best: self.best,
                won: g.won,
                difficulty: g.difficulty,
                undo: g.undo,
                undos_left: g.undos_left,
                spawn_due: false,
            };
        }
        let sliding: bool = match self.anim.phase {
            Phase::Slide => true,
            _ => false,
        };
        let grid: Grid = if sliding {
            self.anim.next
        } else {
            self.grid
        };
        SaveState {
            grid,
            score: self.score,
            best: self.best,
            won: self.won,
            difficulty: self.difficulty,
            undo: self.undo,
            undos_left: self.undos_left,
            spawn_due: sliding && self.anim.commit,
        }
    }

    /// Rebuild from a snapshot: board and scores back, animation idle. An empty board gets its
    /// two tiles; a snapshot taken mid-slide is granted the spawn its move still owed (two
    /// tiles on Hard, and the win if the board reaches 2048); a board then left with no move
    /// (a save that somehow captured a dead game) starts fresh on the same difficulty, the best
    /// kept.
    pub fn apply_save(&mut self, s: SaveState)
        ensures
            restored(*old(self), s, *final(self)),
    {
        self.grid = s.grid;
        self.score = s.score;
        self.best = if s.best > s.score {
            s.best
        } else {
            s.score
        };
        self.won = s.won;
        self.difficulty = s.difficulty;
        self.undo = s.undo;
        self.undos_left = if s.undos_left < 0 {
            0
        } else if s.undos_left > UNDOS {
            UNDOS
        } else {
            s.undos_left
        };
        self.anim.phase = Phase::Idle;
        self.game_over = false;
        if is_empty(&self.grid) {
            self.spawn();
            self.spawn();
            return;
        }
        if s.spawn_due {
            self.spawn();
            if self.difficulty.tiles_per_spawn() == 2 {
                self.spawn();
            }
            if !self.won && reaches(&self.grid) {
                self.won = true;
            }
        }
        if !self.any_moves_left() {
            let best: i64 = self.best;
            self.restart(self.difficulty);
            self.best = best;
        }
    }
}


// ---------------------------------------------------------------------------------------------
// Laws
// ---------------------------------------------------------------------------------------------

proof fn lemma_merged_positive(t: Seq<(u32, usize)>)
    requires
        forall|j: int| 0 <= j < t.len() ==> t[j].0 != 0,
    ensures
        merged(t).len() <= t.len(),
        forall|j: int| 0 <= j < merged(t).len() ==> merged(t)[j] > 0,
    decreases t.len(),
{
    if t.len() >= 2 && t[0].0 == t[1].0 {
        lemma_merged_positive(t.skip(2));
    } else if t.len() > 0 {
        lemma_merged_positive(t.skip(1));
    }
}

proof fn lemma_merged_shrinks(t: Seq<(u32, usize)>, j: int)
    requires
        0 <= j < t.len() - 1,
        t[j].0 == t[j + 1].0,
    ensures
        merged(t).len() < t.len(),
    decreases t.len(),
{
    if t.len() >= 2 && t[0].0 == t[1].0 {
        lemma_merged_len(t.skip(2));
    } else {
        assert(j >= 1);
        lemma_merged_shrinks(t.skip(1), j - 1);
    }
}

proof fn lemma_merged_distinct(t: Seq<(u32, usize)>)
    requires
        forall|j: int| #![trigger t[j]] 0 <= j < t.len() - 1 ==> t[j].0 != t[j + 1].0,
    ensures
        merged(t).len() == t.len(),
        forall|j: int| 0 <= j < t.len() ==> merged(t)[j] == t[j].0 as int,
    decreases t.len(),
{
    if t.len() > 0 {
        let rest = t.skip(1);
        assert forall|j: int| #![trigger rest[j]] 0 <= j < rest.len() - 1 implies rest[j].0 != rest[j + 1].0 by {
            assert(rest[j] == t[j + 1] && rest[j + 1] == t[j + 2]);
        }
        lemma_merged_distinct(rest);
        assert forall|j: int| 0 <= j < t.len() implies merged(t)[j] == t[j].0 as int by {
            if j > 0 {
                assert(merged(t)[j] == merged(rest)[j - 1]);
                assert(rest[j - 1] == t[j]);
            }
        }
    }
}

proof fn lemma_tiles_full(l: Seq<u32>)
    requires
        l.len() <= 4,
        forall|k: int| 0 <= k < l.len() ==> l[k] != 0,
    ensures
        tiles(l).len() == l.len(),
        forall|j: int| 0 <= j < l.len() ==> tiles(l)[j] == (l[j], j as usize),
    decreases l.len(),
{
    if l.len() > 0 {
        let d = l.drop_last();
        lemma_tiles_full(d);
        assert forall|j: int| 0 <= j < l.len() implies tiles(l)[j] == (l[j], j as usize) by {
            if j < l.len() - 1 {
                assert(d[j] == l[j]);
            }
        }
    }
}

/// A line with an empty square before a tile changes when it slides.
proof fn lemma_gap_line(l: Seq<u32>, a: int, b: int)
    requires
        l.len() == 4,
        0 <= a < b < 4,
        l[a] == 0,
        l[b] != 0,
    ensures
        exists|k: int| 0 <= k < 4 && slid_line(l)[k] != l[k] as int,
{
    let t = tiles(l);
    lemma_tiles(l);
    lemma_merged_positive(t);
    let m = merged(t);
    if slid_line(l)[b] == l[b] as int {
        assert(b < m.len());
        assert(slid_line(l)[a] == m[a]);
        assert(slid_line(l)[a] != l[a] as int);
    }
}

/// A full line with two equal neighbors merges, so its far end empties.
proof fn lemma_pair_line(l: Seq<u32>, j: int)
    requires
        l.len() == 4,
        forall|k: int| 0 <= k < 4 ==> l[k] != 0,
        0 <= j < 3,
        l[j] == l[j + 1],
    ensures
        slid_line(l)[3] == 0,
        slid_line(l)[3] != l[3] as int,
{
    lemma_tiles_full(l);
    let t = tiles(l);
    assert(t[j].0 == t[j + 1].0);
    lemma_merged_shrinks(t, j);
}

/// A full line with no two equal neighbors stays as it is.
proof fn lemma_stuck_line(l: Seq<u32>)
    requires
        l.len() == 4,
        forall|k: int| 0 <= k < 4 ==> l[k] != 0,
        forall|k: int| #![trigger l[k]] 0 <= k < 3 ==> l[k] != l[k + 1],
    ensures
        forall|k: int| 0 <= k < 4 ==> slid_line(l)[k] == l[k] as int,
{
    lemma_tiles_full(l);
    let t = tiles(l);
    assert forall|j: int| #![trigger t[j]] 0 <= j < t.len() - 1 implies t[j].0 != t[j + 1].0 by {
        assert(t[j].0 == l[j] && t[j + 1].0 == l[j + 1]);
    }
    lemma_merged_distinct(t);
}

/// The sum of `next` over the listed squares.
pub open spec fn sum_at(next: Grid, squares: Seq<(usize, usize)>) -> int
    decreases squares.len(),
{
    if squares.len() == 0 {
        0
    } else {
        sum_at(next, squares.drop_last()) + next[squares.last().0 as int][squares.last().1 as int]
    }
}

proof fn lemma_sum_at_concat(next: Grid, a: Seq<(usize, usize)>, b: Seq<(usize, usize)>)
    ensures
        sum_at(next, a + b) == sum_at(next, a) + sum_at(next, b),
    decreases b.len(),
{
    if b.len() > 0 {
        lemma_sum_at_concat(next, a, b.drop_last());
        assert((a + b).drop_last() =~= a + b.drop_last());
    } else {
        assert(a + b =~= a);
    }
}

proof fn lemma_line_gain(t: Seq<(u32, usize)>, s: int, dir: u8, i: int, nx: Grid)
    requires
        0 <= i < 4,
        0 <= s,
        s + merged(t).len() <= 4,
        forall|j: int|
            0 <= j < merged(t).len() ==> nx[coord(dir, i, s + j).0][coord(dir, i, s + j).1] as int
                == merged(t)[j],
    ensures
        gain(t) == sum_at(nx, line_pops(t, s, dir, i)),
    decreases t.len(),
{
    if t.len() >= 2 && t[0].0 == t[1].0 {
        let rest = t.skip(2);
        assert forall|j: int| 0 <= j < merged(rest).len() implies nx[coord(dir, i, s + 1 + j).0][coord(
            dir,
            i,
            s + 1 + j,
        ).1] as int == merged(rest)[j] by {
            assert(merged(t)[j + 1] == merged(rest)[j]);
            assert(s + (j + 1) == s + 1 + j);
        }
        lemma_line_gain(rest, s + 1, dir, i, nx);
        let sq = square(dir, i, s);
        let q = coord(dir, i, s);
        assert(merged(t).len() >= 1);
        assert(0 <= q.0 < 4 && 0 <= q.1 < 4);
        assert(sq.0 as int == q.0 && sq.1 as int == q.1);
        lemma_sum_at_concat(nx, seq![sq], line_pops(rest, s + 1, dir, i));
        assert(seq![sq].drop_last() =~= Seq::<(usize, usize)>::empty());
        assert(sum_at(nx, seq![sq]) == sum_at(nx, Seq::<(usize, usize)>::empty()) + nx[q.0][q.1]);
        assert(merged(t)[0] == 2 * t[0].0);
        assert(nx[coord(dir, i, s + 0).0][coord(dir, i, s + 0).1] as int == merged(t)[0]);
        assert(line_pops(t, s, dir, i) == seq![sq] + line_pops(rest, s + 1, dir, i));
    } else if t.len() > 0 {
        let rest = t.skip(1);
        assert forall|j: int| 0 <= j < merged(rest).len() implies nx[coord(dir, i, s + 1 + j).0][coord(
            dir,
            i,
            s + 1 + j,
        ).1] as int == merged(rest)[j] by {
            assert(merged(t)[j + 1] == merged(rest)[j]);
            assert(s + (j + 1) == s + 1 + j);
        }
        lemma_line_gain(rest, s + 1, dir, i, nx);
    }
}

proof fn lemma_gain_upto(g: Grid, dir: u8, n: int, nx: Grid)
    requires
        0 <= n <= 4,
        forall|r: int, c: int| in_board(r, c) ==> nx[r][c] as int == slid(g, dir, r, c),
    ensures
        gain_upto(g, dir, n) == sum_at(nx, pops_upto(g, dir, n)),
    decreases n,
{
    if n > 0 {
        lemma_gain_upto(g, dir, n - 1, nx);
        let i = n - 1;
        let l = line_of(g, dir, i);
        let t = tiles(l);
        lemma_tiles(l);
        lemma_merged_len(t);
        assert forall|j: int| 0 <= j < merged(t).len() implies nx[coord(dir, i, 0 + j).0][coord(dir, i, 0 + j).1] as int
            == merged(t)[j] by {
            let q = coord(dir, i, j);
            assert(in_board(q.0, q.1));
            assert(line_pos(dir, q.0, q.1) == (i, j));
            assert(slid_line(l)[j] == merged(t)[j]);
        }
        lemma_line_gain(t, 0, dir, i, nx);
        lemma_sum_at_concat(nx, pops_upto(g, dir, i), line_pops(t, 0, dir, i));
    }
}

/// **A move scores the tiles its merges make.** What a computed move gains is the sum of the
/// settled values on its merge squares.
pub proof fn lemma_gain_is_sum_of_merges(p: Pending, g: Grid, dir: u8)
    requires
        describes(p, g, dir),
    ensures
        p.gained as int == sum_at(p.next, p.pops@),
{
    lemma_gain_upto(g, dir, 4, p.next);
}

/// A line the tiles already fill from the wall, with no two equal neighbors: every empty
/// square lies behind every tile, and no tile equals the one after it.
pub open spec fn packed(l: Seq<u32>) -> bool {
    &&& forall|a: int, b: int| 0 <= a < b < l.len() && l[a] == 0 ==> l[b] == 0
    &&& forall|k: int| 0 <= k < l.len() - 1 && #[trigger] l[k] != 0 ==> l[k] != l[k + 1]
}

proof fn lemma_tiles_prefix(l: Seq<u32>)
    requires
        l.len() <= 4,
        forall|a: int, b: int| 0 <= a < b < l.len() && l[a] == 0 ==> l[b] == 0,
    ensures
        tiles(l).len() <= l.len(),
        forall|j: int| 0 <= j < tiles(l).len() ==> tiles(l)[j] == (l[j], j as usize),
        forall|k: int| 0 <= k < l.len() ==> (k < tiles(l).len() <==> l[k] != 0),
    decreases l.len(),
{
    if l.len() > 0 {
        let d = l.drop_last();
        assert forall|a: int, b: int| 0 <= a < b < d.len() && d[a] == 0 implies d[b] == 0 by {
            assert(l[a] == d[a] && l[b] == d[b]);
        }
        lemma_tiles_prefix(d);
        let t = tiles(d);
        if l.last() == 0 {
            assert(tiles(l) == t);
            assert forall|k: int| 0 <= k < l.len() implies (k < tiles(l).len() <==> l[k] != 0) by {
                if k < d.len() {
                    assert(l[k] == d[k]);
                }
            }
        }
        if l.last() != 0 {
            assert forall|k: int| 0 <= k < d.len() implies d[k] != 0 by {
                assert(l[k] == d[k]);
                if d[k] == 0 {
                    assert(l[l.len() - 1] == 0);
                }
            }
            assert(t.len() == d.len()) by {
                if t.len() < d.len() {
                    assert(d[t.len() as int] != 0);
                }
            }
            assert(tiles(l) == t.push((l.last(), (l.len() - 1) as usize)));
            assert forall|k: int| 0 <= k < l.len() implies (k < tiles(l).len() <==> l[k] != 0) by {
                if k < d.len() {
                    assert(l[k] == d[k]);
                }
            }
        }
    }
}

proof fn lemma_packed_line(l: Seq<u32>)
    requires
        l.len() == 4,
    ensures
        packed(l) <==> forall|k: int| 0 <= k < 4 ==> slid_line(l)[k] == l[k] as int,
{
    let t = tiles(l);
    lemma_tiles(l);
    if packed(l) {
        lemma_tiles_prefix(l);
        assert forall|j: int| #![trigger t[j]] 0 <= j < t.len() - 1 implies t[j].0 != t[j + 1].0 by {
            assert(t[j] == (l[j], j as usize) && t[j + 1] == (l[j + 1], (j + 1) as usize));
            assert(l[j] != 0);
        }
        lemma_merged_distinct(t);
        assert forall|k: int| 0 <= k < 4 implies slid_line(l)[k] == l[k] as int by {
            if k < t.len() {
                assert(merged(t)[k] == t[k].0 as int);
            }
        }
    } else if exists|a: int, b: int| 0 <= a < b < 4 && l[a] == 0 && l[b] != 0 {
        let (a, b) = choose|a: int, b: int| 0 <= a < b < 4 && l[a] == 0 && l[b] != 0;
        lemma_gap_line(l, a, b);
    } else {
        lemma_tiles_prefix(l);
        let k = choose|k: int| 0 <= k < 3 && #[trigger] l[k] != 0 && l[k] == l[k + 1];
        assert(k < t.len() && k + 1 < t.len());
        assert(t[k].0 == t[k + 1].0);
        lemma_merged_shrinks(t, k);
        let n = t.len() - 1;
        assert(l[n] != 0);
        assert(slid_line(l)[n] == 0);
    }
}

/// **No move exactly on packed lines.** Sliding toward `dir` changes nothing (so no move is
/// computed) exactly when every line already has its tiles against the wall with no two equal
/// neighbors.
pub proof fn lemma_no_move_iff_lines_packed(g: Grid, dir: u8)
    ensures
        !changes(g, dir) <==> forall|i: int| 0 <= i < 4 ==> packed(#[trigger] line_of(g, dir, i)),
{
    if changes(g, dir) {
        let (r, c) = choose|r: int, c: int| in_board(r, c) && slid(g, dir, r, c) != g[r][c] as int;
        let p = line_pos(dir, r, c);
        let l = line_of(g, dir, p.0);
        assert(coord(dir, p.0, p.1) == (r, c));
        assert(l[p.1] == g[r][c]);
        lemma_packed_line(l);
        assert(!packed(line_of(g, dir, p.0)));
    } else {
        assert forall|i: int| 0 <= i < 4 implies packed(#[trigger] line_of(g, dir, i)) by {
            let l = line_of(g, dir, i);
            lemma_packed_line(l);
            assert forall|k: int| 0 <= k < 4 implies slid_line(l)[k] == l[k] as int by {
                let q = coord(dir, i, k);
                assert(in_board(q.0, q.1));
                assert(line_pos(dir, q.0, q.1) == (i, k));
                assert(l[k] == g[q.0][q.1]);
                assert(slid(g, dir, q.0, q.1) == g[q.0][q.1] as int);
            }
        }
    }
}

/// **The game is over exactly when it is stuck.** On a board with at least one tile, the game's
/// own test for a move left (an empty square, or two equal neighbors) holds exactly when some
/// direction would change the board; so a game declared over has truly no move, and a game
/// not over has one.
pub proof fn lemma_move_left_iff_some_slide_changes(g: Grid)
    requires
        !all_empty(g),
    ensures
        has_move_left(g) <==> exists|dir: u8| dir < 4 && changes(g, dir),
{
    if has_move_left(g) {
        lemma_some_slide_changes(g);
    } else {
        assert forall|dir: u8| dir < 4 implies !changes(g, dir) by {
            lemma_stuck_board(g, dir);
        }
    }
}

proof fn lemma_stuck_board(g: Grid, dir: u8)
    requires
        !has_move_left(g),
        dir < 4,
    ensures
        !changes(g, dir),
{
    assert forall|r: int, c: int| in_board(r, c) implies slid(g, dir, r, c) == g[r][c] as int by {
        let p = line_pos(dir, r, c);
        let l = line_of(g, dir, p.0);
        assert forall|k: int| 0 <= k < 4 implies l[k] != 0 by {
            let q = coord(dir, p.0, k);
            assert(in_board(q.0, q.1));
        }
        assert forall|k: int| #![trigger l[k]] 0 <= k < 3 implies l[k] != l[k + 1] by {
            let q = coord(dir, p.0, k);
            let q2 = coord(dir, p.0, k + 1);
            if dir == 0 {
                assert(g[q.0][q.1] != g[q.0][q.1 + 1]);
            } else if dir == 1 {
                assert(g[q2.0][q2.1] != g[q2.0][q2.1 + 1]);
            } else if dir == 2 {
                assert(g[q.0][q.1] != g[q.0 + 1][q.1]);
            } else {
                assert(g[q2.0][q2.1] != g[q2.0 + 1][q2.1]);
            }
        }
        lemma_stuck_line(l);
        assert(0 <= p.0 < 4 && 0 <= p.1 < 4);
        assert(coord(dir, p.0, p.1) == (r, c));
        assert(l[p.1] == at(g, coord(dir, p.0, p.1)));
        assert(slid_line(l)[p.1] == l[p.1] as int);
    }
}

/// Some direction changes a board with a tile and a move left.
proof fn lemma_some_slide_changes(g: Grid)
    requires
        !all_empty(g),
        has_move_left(g),
    ensures
        exists|dir: u8| dir < 4 && changes(g, dir),
{
    let (r1, c1) = choose|r: int, c: int| in_board(r, c) && g[r][c] != 0;
    if exists|r: int, c: int| in_board(r, c) && g[r][c] == 0 {
        let (r0, c0) = choose|r: int, c: int| in_board(r, c) && g[r][c] == 0;
        if exists|c: int| 0 <= c < 4 && g[r0][c] != 0 {
            let c = choose|c: int| 0 <= c < 4 && g[r0][c] != 0;
            if c > c0 {
                let l = line_of(g, 0, r0);
                lemma_gap_line(l, c0, c);
                let k = choose|k: int| 0 <= k < 4 && slid_line(l)[k] != l[k] as int;
                assert(slid(g, 0, r0, k) != g[r0][k] as int);
                assert(in_board(r0, k));
                assert(changes(g, 0));
            } else {
                let l = line_of(g, 1, r0);
                lemma_gap_line(l, 3 - c0, 3 - c);
                let k = choose|k: int| 0 <= k < 4 && slid_line(l)[k] != l[k] as int;
                assert(slid(g, 1, r0, 3 - k) != g[r0][3 - k] as int);
                assert(in_board(r0, 3 - k));
                assert(changes(g, 1));
            }
        } else {
            assert(g[r0][c1] == 0);
            if r1 > r0 {
                let l = line_of(g, 2, c1);
                lemma_gap_line(l, r0, r1);
                let k = choose|k: int| 0 <= k < 4 && slid_line(l)[k] != l[k] as int;
                assert(slid(g, 2, k, c1) != g[k][c1] as int);
                assert(in_board(k, c1));
                assert(changes(g, 2));
            } else {
                let l = line_of(g, 3, c1);
                lemma_gap_line(l, 3 - r0, 3 - r1);
                let k = choose|k: int| 0 <= k < 4 && slid_line(l)[k] != l[k] as int;
                assert(slid(g, 3, 3 - k, c1) != g[3 - k][c1] as int);
                assert(in_board(3 - k, c1));
                assert(changes(g, 3));
            }
        }
    } else if exists|r: int, c: int| #![trigger g[r][c]] 0 <= r < 4 && 0 <= c < 3 && g[r][c] == g[r][c + 1] {
        let (r, c) = choose|r: int, c: int| #![trigger g[r][c]] 0 <= r < 4 && 0 <= c < 3 && g[r][c] == g[r][c + 1];
        let l = line_of(g, 0, r);
        assert forall|k: int| 0 <= k < 4 implies l[k] != 0 by {
            assert(in_board(r, k));
        }
        lemma_pair_line(l, c);
        assert(slid(g, 0, r, 3) != g[r][3] as int);
        assert(in_board(r, 3));
        assert(changes(g, 0));
    } else {
        let (r, c) = choose|r: int, c: int| #![trigger g[r][c]] 0 <= r < 3 && 0 <= c < 4 && g[r][c] == g[r + 1][c];
        let l = line_of(g, 2, c);
        assert forall|k: int| 0 <= k < 4 implies l[k] != 0 by {
            assert(in_board(k, c));
        }
        lemma_pair_line(l, r);
        assert(slid(g, 2, 3, c) != g[3][c] as int);
        assert(in_board(3, c));
        assert(changes(g, 2));
    }
}

/// The sum of a line's values.
pub open spec fn line_total(l: Seq<u32>) -> int
    decreases l.len(),
{
    if l.len() == 0 {
        0
    } else {
        line_total(l.drop_last()) + l.last()
    }
}

/// The sum of a line of tiles' values.
pub open spec fn tiles_total(t: Seq<(u32, usize)>) -> int
    decreases t.len(),
{
    if t.len() == 0 {
        0
    } else {
        t[0].0 + tiles_total(t.skip(1))
    }
}

/// The sum of settled values.
pub open spec fn values_total(m: Seq<int>) -> int
    decreases m.len(),
{
    if m.len() == 0 {
        0
    } else {
        m[0] + values_total(m.skip(1))
    }
}

/// The sum of every tile on the board.
pub open spec fn total(g: Grid) -> int {
    g[0][0] + g[0][1] + g[0][2] + g[0][3] + g[1][0] + g[1][1] + g[1][2] + g[1][3] + g[2][0]
        + g[2][1] + g[2][2] + g[2][3] + g[3][0] + g[3][1] + g[3][2] + g[3][3]
}

/// The sum of every tile on the board after sliding toward `dir`.
pub open spec fn slid_total(g: Grid, dir: u8) -> int {
    slid(g, dir, 0, 0) + slid(g, dir, 0, 1) + slid(g, dir, 0, 2) + slid(g, dir, 0, 3) + slid(
        g,
        dir,
        1,
        0,
    ) + slid(g, dir, 1, 1) + slid(g, dir, 1, 2) + slid(g, dir, 1, 3) + slid(g, dir, 2, 0) + slid(
        g,
        dir,
        2,
        1,
    ) + slid(g, dir, 2, 2) + slid(g, dir, 2, 3) + slid(g, dir, 3, 0) + slid(g, dir, 3, 1) + slid(
        g,
        dir,
        3,
        2,
    ) + slid(g, dir, 3, 3)
}

proof fn lemma_tiles_total_push(t: Seq<(u32, usize)>, x: (u32, usize))
    ensures
        tiles_total(t.push(x)) == tiles_total(t) + x.0,
    decreases t.len(),
{
    if t.len() > 0 {
        assert(t.push(x).skip(1) =~= t.skip(1).push(x));
        assert(t.push(x)[0] == t[0]);
        lemma_tiles_total_push(t.skip(1), x);
    } else {
        assert(t.push(x).skip(1) =~= Seq::<(u32, usize)>::empty());
        assert(t.push(x)[0] == x);
        assert(tiles_total(Seq::<(u32, usize)>::empty()) == 0);
    }
}

proof fn lemma_tiles_total(l: Seq<u32>)
    requires
        l.len() <= 4,
    ensures
        tiles_total(tiles(l)) == line_total(l),
    decreases l.len(),
{
    if l.len() > 0 {
        lemma_tiles_total(l.drop_last());
        if l.last() != 0 {
            lemma_tiles_total_push(tiles(l.drop_last()), (l.last(), (l.len() - 1) as usize));
        }
    }
}

proof fn lemma_merged_total(t: Seq<(u32, usize)>)
    ensures
        values_total(merged(t)) == tiles_total(t),
    decreases t.len(),
{
    if t.len() >= 2 && t[0].0 == t[1].0 {
        lemma_merged_total(t.skip(2));
        let m = merged(t);
        assert(m.skip(1) =~= merged(t.skip(2)));
        assert(t.skip(1).skip(1) =~= t.skip(2));
        assert(t.skip(1)[0] == t[1]);
        assert(tiles_total(t.skip(1)) == t[1].0 + tiles_total(t.skip(2)));
    } else if t.len() > 0 {
        lemma_merged_total(t.skip(1));
        let m = merged(t);
        assert(m.skip(1) =~= merged(t.skip(1)));
    }
}

proof fn lemma_values_total_4(m: Seq<int>)
    requires
        m.len() <= 4,
    ensures
        values_total(m) == (if 0 < m.len() { m[0] } else { 0 }) + (if 1 < m.len() { m[1] } else { 0 })
            + (if 2 < m.len() { m[2] } else { 0 }) + (if 3 < m.len() { m[3] } else { 0 }),
    decreases m.len(),
{
    if m.len() > 0 {
        lemma_values_total_4(m.skip(1));
    }
}

/// Sliding a line keeps the sum of its values.
proof fn lemma_slid_line_total(l: Seq<u32>)
    requires
        l.len() == 4,
    ensures
        slid_line(l)[0] + slid_line(l)[1] + slid_line(l)[2] + slid_line(l)[3] == l[0] + l[1] + l[2]
            + l[3],
{
    lemma_tiles(l);
    lemma_tiles_total(l);
    lemma_merged_total(tiles(l));
    lemma_merged_len(tiles(l));
    lemma_values_total_4(merged(tiles(l)));
    assert(line_total(l) == l[0] + l[1] + l[2] + l[3]) by {
        reveal_with_fuel(line_total, 5);
        assert(l.drop_last().drop_last().drop_last().drop_last() =~= Seq::<u32>::empty());
    }
}

/// **A move conserves value.** Sliding never creates or loses value: merging two equal tiles
/// into their sum keeps the board's total, whatever the direction.
pub proof fn lemma_slide_keeps_total(g: Grid, dir: u8)
    ensures
        slid_total(g, dir) == total(g),
{
    lemma_slid_line_total(line_of(g, dir, 0));
    lemma_slid_line_total(line_of(g, dir, 1));
    lemma_slid_line_total(line_of(g, dir, 2));
    lemma_slid_line_total(line_of(g, dir, 3));
    let l0 = line_of(g, dir, 0);
    let l1 = line_of(g, dir, 1);
    let l2 = line_of(g, dir, 2);
    let l3 = line_of(g, dir, 3);
    assert(l0[0] + l0[1] + l0[2] + l0[3] + l1[0] + l1[1] + l1[2] + l1[3] + l2[0] + l2[1] + l2[2]
        + l2[3] + l3[0] + l3[1] + l3[2] + l3[3] == total(g));
}

/// On Easy every spawned tile is a 2.
pub proof fn lemma_easy_spawns_twos(draw: u64)
    ensures
        spawn_value(Difficulty::Easy, draw) == 2,
{
}

} // verus!

verus! {

/// The slide an arrow key asks for: 0 left, 1 right, 2 up, 3 down. A key press is a whole move,
/// previewed fully and then released.
pub open spec fn key_slide(key: Seq<char>) -> Option<u8> {
    if key == "ArrowLeft"@ {
        Some(0u8)
    } else if key == "ArrowRight"@ {
        Some(1u8)
    } else if key == "ArrowUp"@ {
        Some(2u8)
    } else if key == "ArrowDown"@ {
        Some(3u8)
    } else {
        None
    }
}

/// The slide `key` asks for, if it is an arrow.
pub fn key_direction(key: &str) -> (d: Option<u8>)
    ensures
        d == key_slide(key@),
{
    if is_key(key, "ArrowLeft") {
        Some(0)
    } else if is_key(key, "ArrowRight") {
        Some(1)
    } else if is_key(key, "ArrowUp") {
        Some(2)
    } else if is_key(key, "ArrowDown") {
        Some(3)
    } else {
        None
    }
}

} // verus!

verus! {

/// The face color of a tile of value `v`, as 0xRRGGBB: a warm ramp from 2 to 2048, dark above.
pub open spec fn tile_rgb(v: u32) -> u32 {
    if v == 2 {
        0xEE_E4_DA
    } else if v == 4 {
        0xED_E0_C8
    } else if v == 8 {
        0xF2_B1_79
    } else if v == 16 {
        0xF5_95_63
    } else if v == 32 {
        0xF6_7C_5F
    } else if v == 64 {
        0xF6_5E_3B
    } else if v == 128 {
        0xED_CF_72
    } else if v == 256 {
        0xED_CC_61
    } else if v == 512 {
        0xED_C8_50
    } else if v == 1024 {
        0xED_C5_3F
    } else if v == 2048 {
        0xED_C2_2E
    } else {
        0x3C_3A_32
    }
}

/// The face color of a tile of value `v`, as 0xRRGGBB.
pub fn tile_color(v: u32) -> (c: u32)
    ensures
        c == tile_rgb(v),
{
    match v {
        2 => 0xEE_E4_DA,
        4 => 0xED_E0_C8,
        8 => 0xF2_B1_79,
        16 => 0xF5_95_63,
        32 => 0xF6_7C_5F,
        64 => 0xF6_5E_3B,
        128 => 0xED_CF_72,
        256 => 0xED_CC_61,
        512 => 0xED_C8_50,
        1024 => 0xED_C5_3F,
        2048 => 0xED_C2_2E,
        _ => 0x3C_3A_32,
    }
}

/// The digit color on a tile of value `v`, as 0xRRGGBB: dark on the two pale tiles, light on
/// the rest.
pub fn tile_text_color(v: u32) -> (c: u32)
    ensures
        c == if v <= 4 { 0x77_6E_65u32 } else { 0xF9_F6_F2u32 },
{
    if v <= 4 {
        0x77_6E_65
    } else {
        0xF9_F6_F2
    }
}

} // verus!
