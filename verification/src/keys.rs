//! Naming the keyboard keys the games listen for. A key arrives as the platform's name for it
//! ("ArrowLeft", "Enter", " ", "p"); each game decides from that name what it does.

use vstd::prelude::*;

verus! {

/// Whether the key reported as `key` is the one named `name`.
pub fn is_key(key: &str, name: &str) -> (b: bool)
    ensures
        b == (key@ == name@),
{
    let a: String = key.to_owned();
    let n: String = name.to_owned();
    a == n
}

/// Whether `key` is one of the two names `a` and `b`.
pub fn is_either(key: &str, a: &str, b: &str) -> (r: bool)
    ensures
        r == (key@ == a@ || key@ == b@),
{
    is_key(key, a) || is_key(key, b)
}

/// On a square board of `n` by `n` squares numbered row by row, the square left of `i`, the
/// row wrapping round to its far end.
pub open spec fn left_of(i: int, n: int) -> int {
    i / n * n + (i % n + n - 1) % n
}

/// The square right of `i`, the row wrapping round.
pub open spec fn right_of(i: int, n: int) -> int {
    i / n * n + (i % n + 1) % n
}

/// The square above `i`, the top row wrapping to the bottom one.
pub open spec fn above(i: int, n: int) -> int {
    (i + n * n - n) % (n * n)
}

/// The square below `i`, the bottom row wrapping to the top one.
pub open spec fn below(i: int, n: int) -> int {
    (i + n) % (n * n)
}

/// A cursor step on an `n` by `n` board: 0 left, 1 right, 2 up, 3 down.
pub fn cursor_step(i: usize, n: usize, dir: u8) -> (j: usize)
    requires
        0 < n,
        n * n + i <= usize::MAX,
        dir < 4,
    ensures
        dir == 0 ==> j == left_of(i as int, n as int),
        dir == 1 ==> j == right_of(i as int, n as int),
        dir == 2 ==> j == above(i as int, n as int),
        dir == 3 ==> j == below(i as int, n as int),
{
    proof {
        assert(0 <= i / n * n <= i) by (nonlinear_arith)
            requires 0 < n;
        assert(2 * n - 1 <= n * n) by (nonlinear_arith)
            requires 0 < n;
    }
    let row = i / n * n;
    let nn = n * n;
    if dir == 0 {
        row + (i % n + n - 1) % n
    } else if dir == 1 {
        row + (i % n + 1) % n
    } else if dir == 2 {
        (i + nn - n) % nn
    } else {
        (i + n) % nn
    }
}

proof fn lemma_split(q: int, c: int, n: int)
    requires
        0 < n,
        0 <= c < n,
    ensures
        (q * n + c) / n == q,
        (q * n + c) % n == c,
{
    vstd::arithmetic::div_mod::lemma_fundamental_div_mod_converse_mod(q * n + c, n, q, c);
    vstd::arithmetic::div_mod::lemma_fundamental_div_mod_converse_div(q * n + c, n, q, c);
}

proof fn lemma_mod_once(x: int, m: int)
    requires
        0 < m,
        0 <= x < 2 * m,
    ensures
        x % m == if x < m { x } else { x - m },
{
    if x < m {
        lemma_split(0, x, m);
    } else {
        lemma_split(1, x - m, m);
    }
}

proof fn lemma_row_col(i: int, n: int)
    requires
        0 < n,
        0 <= i < n * n,
    ensures
        i == i / n * n + i % n,
        0 <= i / n < n,
        0 <= i % n < n,
{
    vstd::arithmetic::div_mod::lemma_fundamental_div_mod(i, n);
    assert(i / n * n == n * (i / n)) by (nonlinear_arith);
    vstd::arithmetic::div_mod::lemma_div_pos_is_pos(i, n);
    vstd::arithmetic::div_mod::lemma_div_by_multiple_is_strongly_ordered(i, n * n, n, n);
    assert(n * n / n == n) by {
        lemma_split(n, 0, n);
    }
}

/// Cursor steps stay on the board, and each is undone by the opposite step: left and right
/// keep the row, up and down the column.
pub proof fn lemma_cursor_steps_undo(i: int, n: int)
    requires
        0 < n,
        0 <= i < n * n,
    ensures
        0 <= left_of(i, n) < n * n,
        0 <= right_of(i, n) < n * n,
        0 <= above(i, n) < n * n,
        0 <= below(i, n) < n * n,
        left_of(right_of(i, n), n) == i,
        right_of(left_of(i, n), n) == i,
        above(below(i, n), n) == i,
        below(above(i, n), n) == i,
        left_of(i, n) / n == i / n,
        right_of(i, n) / n == i / n,
        above(i, n) % n == i % n,
        below(i, n) % n == i % n,
{
    lemma_row_col(i, n);
    let r = i / n;
    let c = i % n;
    let nn = n * n;
    assert(r * n <= nn - n) by (nonlinear_arith)
        requires 0 <= r < n, nn == n * n;
    assert(0 <= r * n) by (nonlinear_arith)
        requires 0 <= r, 0 < n;
    // Along the row.
    lemma_mod_once(c + 1, n);
    lemma_mod_once(c + n - 1, n);
    let c1 = (c + 1) % n;
    let c2 = (c + n - 1) % n;
    lemma_split(r, c1, n);
    lemma_split(r, c2, n);
    assert(right_of(i, n) == r * n + c1);
    assert(left_of(i, n) == r * n + c2);
    lemma_mod_once(c1 + n - 1, n);
    lemma_mod_once(c2 + 1, n);
    // Along the column.
    assert((r + 1) * n == r * n + n) by (nonlinear_arith);
    assert((r - 1) * n == r * n - n) by (nonlinear_arith);
    assert((n - 1) * n == nn - n) by (nonlinear_arith)
        requires nn == n * n;
    lemma_mod_once(i + n, nn);
    lemma_mod_once(i + nn - n, nn);
    let b = (i + n) % nn;
    let a = (i + nn - n) % nn;
    if r < n - 1 {
        assert((r + 1) * n <= nn - n) by (nonlinear_arith)
            requires r + 1 <= n - 1, nn == n * n, 0 < n;
        assert(b == (r + 1) * n + c);
        lemma_split(r + 1, c, n);
    } else {
        assert(b == c);
        lemma_split(0, c, n);
    }
    if r >= 1 {
        assert(a == (r - 1) * n + c);
        lemma_split(r - 1, c, n);
    } else {
        assert(a == (n - 1) * n + c);
        lemma_split(n - 1, c, n);
    }
    lemma_mod_once(b + nn - n, nn);
    lemma_mod_once(a + n, nn);
}

} // verus!
