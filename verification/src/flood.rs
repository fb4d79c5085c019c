//! The bit-parallel search for legal squares and the proof that it finds
//! exactly the squares that the rules allow.
//!
//! In each of the eight directions the squares of the moving side are pushed
//! across the lines of the other side, all 64 squares at once and with the
//! distance doubled from step to step; the squares just beyond those lines
//! are the candidates.
use crate::grid::{
    ahead_col, ahead_row, fits_down, fits_up, holds, is_direction, lemma_index, lemma_masks_equal,
    lemma_set_bits, occupied, on_board, rises, set_bits, square, stride,
};
use crate::rules::{is_legal_move, legal_mask, legal_square, marks_legal_squares, outflanks};
use vstd::prelude::*;

verus! {

/// The columns in which a line that runs sideways or diagonally can pass.
pub const INNER_COLUMNS: u64 = 0x7e7e_7e7e_7e7e_7e7e;

/// The disks of `o` that a line with stride `d` can pass: all of them for a
/// vertical line, else those off the two outer columns.
pub open spec fn passable(o: u64, d: u64) -> u64 {
    if d == 8 {
        o
    } else {
        o & 0x7e7e_7e7e_7e7e_7e7e
    }
}

/// The disks of `m` reached from `p` towards lower square indices, `d`
/// indices at a time, over up to six disks of `m` in a row.
pub open spec fn fill_left(p: u64, m: u64, d: u64) -> u64 {
    let f1 = m & (p << d);
    let f2 = f1 | (m & (f1 << d));
    let pre = m & (m << d);
    let f3 = f2 | (pre & (f2 << ((2 * d) as u64)));
    f3 | (pre & (f3 << ((2 * d) as u64)))
}

/// The disks of `m` reached from `p` towards higher square indices, `d`
/// indices at a time, over up to six disks of `m` in a row.
pub open spec fn fill_right(p: u64, m: u64, d: u64) -> u64 {
    let f1 = m & (p >> d);
    let f2 = f1 | (m & (f1 >> d));
    let pre = (m & (m << d)) >> d;
    let f3 = f2 | (pre & (f2 >> ((2 * d) as u64)));
    f3 | (pre & (f3 >> ((2 * d) as u64)))
}

/// The squares from which a line in direction `dir` leads over disks of `o`
/// to a disk of `p`.
pub open spec fn candidates(p: u64, o: u64, dir: int) -> u64 {
    let d = stride(dir);
    if rises(dir) {
        fill_left(p, passable(o, d), d) << d
    } else {
        fill_right(p, passable(o, d), d) >> d
    }
}

/// What the bit-parallel search computes for the side `p`.
pub open spec fn parallel_moves(p: u64, o: u64) -> u64 {
    (candidates(p, o, 2) | candidates(p, o, 5) | candidates(p, o, 3) | candidates(p, o, 4)
        | candidates(p, o, 6) | candidates(p, o, 1) | candidates(p, o, 7) | candidates(p, o, 0))
        & !(p | o)
}

/// By square index: `k` disks of `o` above `n`, `d` indices apart, and then a
/// disk of `p`, all on one line of the board.
pub open spec fn run_up(p: u64, o: u64, d: u64, n: u64, k: u64) -> bool {
    &&& fits_up(d, n, (k + 1) as u64)
    &&& holds(p, (n + (k + 1) * d) as u64)
    &&& (k >= 1 ==> holds(o, (n + d) as u64))
    &&& (k >= 2 ==> holds(o, (n + 2 * d) as u64))
    &&& (k >= 3 ==> holds(o, (n + 3 * d) as u64))
    &&& (k >= 4 ==> holds(o, (n + 4 * d) as u64))
    &&& (k >= 5 ==> holds(o, (n + 5 * d) as u64))
    &&& (k >= 6 ==> holds(o, (n + 6 * d) as u64))
}

/// By square index: `k` disks of `o` below `n`, `d` indices apart, and then a
/// disk of `p`, all on one line of the board.
pub open spec fn run_down(p: u64, o: u64, d: u64, n: u64, k: u64) -> bool {
    &&& fits_down(d, n, (k + 1) as u64)
    &&& holds(p, (n - (k + 1) * d) as u64)
    &&& (k >= 1 ==> holds(o, (n - d) as u64))
    &&& (k >= 2 ==> holds(o, (n - 2 * d) as u64))
    &&& (k >= 3 ==> holds(o, (n - 3 * d) as u64))
    &&& (k >= 4 ==> holds(o, (n - 4 * d) as u64))
    &&& (k >= 5 ==> holds(o, (n - 5 * d) as u64))
    &&& (k >= 6 ==> holds(o, (n - 6 * d) as u64))
}

/// `outflanks` for a `k` of at most six, without the quantifier.
pub open spec fn lined_up(p: u64, o: u64, r: int, c: int, dir: int, k: int) -> bool {
    &&& occupied(p, ahead_row(dir, r, k + 1), ahead_col(dir, c, k + 1))
    &&& (k >= 1 ==> occupied(o, ahead_row(dir, r, 1), ahead_col(dir, c, 1)))
    &&& (k >= 2 ==> occupied(o, ahead_row(dir, r, 2), ahead_col(dir, c, 2)))
    &&& (k >= 3 ==> occupied(o, ahead_row(dir, r, 3), ahead_col(dir, c, 3)))
    &&& (k >= 4 ==> occupied(o, ahead_row(dir, r, 4), ahead_col(dir, c, 4)))
    &&& (k >= 5 ==> occupied(o, ahead_row(dir, r, 5), ahead_col(dir, c, 5)))
    &&& (k >= 6 ==> occupied(o, ahead_row(dir, r, 6), ahead_col(dir, c, 6)))
}

proof fn lemma_fill_left(p: u64, o: u64, d: u64, n: u64)
    by (bit_vector)
    requires
        n < 64,
        d == 1 || d == 7 || d == 8 || d == 9,
    ensures
        holds(fill_left(p, passable(o, d), d) << d, n) <==> (run_up(p, o, d, n, 1) || run_up(
            p,
            o,
            d,
            n,
            2,
        ) || run_up(p, o, d, n, 3) || run_up(p, o, d, n, 4) || run_up(p, o, d, n, 5) || run_up(
            p,
            o,
            d,
            n,
            6,
        )),
{
}

proof fn lemma_fill_right(p: u64, o: u64, d: u64, n: u64)
    by (bit_vector)
    requires
        n < 64,
        d == 1 || d == 7 || d == 8 || d == 9,
    ensures
        holds(fill_right(p, passable(o, d), d) >> d, n) <==> (run_down(p, o, d, n, 1) || run_down(
            p,
            o,
            d,
            n,
            2,
        ) || run_down(p, o, d, n, 3) || run_down(p, o, d, n, 4) || run_down(p, o, d, n, 5)
            || run_down(p, o, d, n, 6)),
{
}

proof fn lemma_union(
    a: u64,
    b: u64,
    c: u64,
    d: u64,
    e: u64,
    f: u64,
    g: u64,
    h: u64,
    p: u64,
    o: u64,
    n: u64,
)
    by (bit_vector)
    requires
        n < 64,
    ensures
        holds((a | b | c | d | e | f | g | h) & !(p | o), n) <==> ((holds(a, n) || holds(b, n)
            || holds(c, n) || holds(d, n) || holds(e, n) || holds(f, n) || holds(g, n) || holds(
            h,
            n,
        )) && !holds(p, n) && !holds(o, n)),
{
}

/// The square `t` steps ahead lies on the board exactly if the steps fit, and
/// its index is `t` strides away.
pub proof fn lemma_ahead(mask: u64, r: int, c: int, dir: int, t: int)
    requires
        on_board(r, c),
        is_direction(dir),
        0 <= t <= 7,
    ensures
        rises(dir) ==> on_board(ahead_row(dir, r, t), ahead_col(dir, c, t)) == fits_up(
            stride(dir),
            (8 * r + c) as u64,
            t as u64,
        ),
        !rises(dir) ==> on_board(ahead_row(dir, r, t), ahead_col(dir, c, t)) == fits_down(
            stride(dir),
            (8 * r + c) as u64,
            t as u64,
        ),
        rises(dir) && on_board(ahead_row(dir, r, t), ahead_col(dir, c, t)) ==> occupied(
            mask,
            ahead_row(dir, r, t),
            ahead_col(dir, c, t),
        ) == holds(mask, (8 * r + c + t * stride(dir)) as u64),
        !rises(dir) && on_board(ahead_row(dir, r, t), ahead_col(dir, c, t)) ==> occupied(
            mask,
            ahead_row(dir, r, t),
            ahead_col(dir, c, t),
        ) == holds(mask, (8 * r + c - t * stride(dir)) as u64),
{
    let n = 8 * r + c;
    assert(n / 8 == r && n % 8 == c);
    let rr = ahead_row(dir, r, t);
    let cc = ahead_col(dir, c, t);
    if on_board(rr, cc) {
        lemma_index(mask, rr, cc);
        if dir == 0 {
            assert(8 * rr + cc == n - t * 8);
        } else if dir == 1 {
            assert(8 * rr + cc == n - t * 7);
        } else if dir == 2 {
            assert(8 * rr + cc == n + t * 1);
        } else if dir == 3 {
            assert(8 * rr + cc == n + t * 9);
        } else if dir == 4 {
            assert(8 * rr + cc == n + t * 8);
        } else if dir == 5 {
            assert(8 * rr + cc == n + t * 7);
        } else if dir == 6 {
            assert(8 * rr + cc == n - t * 1);
        } else {
            assert(8 * rr + cc == n - t * 9);
        }
    }
}

/// If the square `t` steps ahead lies on the board, so do the squares before
/// it.
pub proof fn lemma_between(r: int, c: int, dir: int, j: int, t: int)
    requires
        on_board(r, c),
        is_direction(dir),
        0 <= j <= t,
        on_board(ahead_row(dir, r, t), ahead_col(dir, c, t)),
    ensures
        on_board(ahead_row(dir, r, j), ahead_col(dir, c, j)),
        t <= 7,
{
}

/// A line that outflanks is at most six disks long, and `lined_up` says the
/// same of such lines as `outflanks`.
pub proof fn lemma_lined_up(p: u64, o: u64, r: int, c: int, dir: int, k: int)
    requires
        on_board(r, c),
        is_direction(dir),
    ensures
        outflanks(p, o, r, c, dir, k) <==> (1 <= k <= 6 && lined_up(p, o, r, c, dir, k)),
{
    if outflanks(p, o, r, c, dir, k) {
        lemma_between(r, c, dir, 0, k + 1);
        assert(k >= 1 ==> occupied(o, ahead_row(dir, r, 1), ahead_col(dir, c, 1)));
        assert(k >= 2 ==> occupied(o, ahead_row(dir, r, 2), ahead_col(dir, c, 2)));
        assert(k >= 3 ==> occupied(o, ahead_row(dir, r, 3), ahead_col(dir, c, 3)));
        assert(k >= 4 ==> occupied(o, ahead_row(dir, r, 4), ahead_col(dir, c, 4)));
        assert(k >= 5 ==> occupied(o, ahead_row(dir, r, 5), ahead_col(dir, c, 5)));
        assert(k >= 6 ==> occupied(o, ahead_row(dir, r, 6), ahead_col(dir, c, 6)));
    }
    if 1 <= k <= 6 && lined_up(p, o, r, c, dir, k) {
        assert forall|j: int| 1 <= j <= k implies #[trigger] occupied(
            o,
            ahead_row(dir, r, j),
            ahead_col(dir, c, j),
        ) by {
            assert(j == 1 || j == 2 || j == 3 || j == 4 || j == 5 || j == 6);
        }
    }
}

/// A line of `k` disks by rows and columns is the same line by square index.
proof fn lemma_run(p: u64, o: u64, r: int, c: int, dir: int, k: int)
    requires
        on_board(r, c),
        is_direction(dir),
        1 <= k <= 6,
    ensures
        rises(dir) ==> lined_up(p, o, r, c, dir, k) == run_up(
            p,
            o,
            stride(dir),
            (8 * r + c) as u64,
            k as u64,
        ),
        !rises(dir) ==> lined_up(p, o, r, c, dir, k) == run_down(
            p,
            o,
            stride(dir),
            (8 * r + c) as u64,
            k as u64,
        ),
{
    lemma_ahead(p, r, c, dir, k + 1);
    lemma_ahead(o, r, c, dir, 1);
    lemma_ahead(o, r, c, dir, 2);
    lemma_ahead(o, r, c, dir, 3);
    lemma_ahead(o, r, c, dir, 4);
    lemma_ahead(o, r, c, dir, 5);
    lemma_ahead(o, r, c, dir, 6);
    if on_board(ahead_row(dir, r, k + 1), ahead_col(dir, c, k + 1)) {
        lemma_between(r, c, dir, 1, k + 1);
        lemma_between(r, c, dir, 2, k + 1);
        if k >= 2 {
            lemma_between(r, c, dir, 3, k + 1);
        }
        if k >= 3 {
            lemma_between(r, c, dir, 4, k + 1);
        }
        if k >= 4 {
            lemma_between(r, c, dir, 5, k + 1);
        }
        if k >= 5 {
            lemma_between(r, c, dir, 6, k + 1);
        }
    }
}

/// In one direction, the search marks a square exactly if a line from it
/// outflanks.
proof fn lemma_candidates(p: u64, o: u64, r: int, c: int, dir: int)
    requires
        on_board(r, c),
        is_direction(dir),
    ensures
        holds(candidates(p, o, dir), (8 * r + c) as u64) <==> exists|k: int| #[trigger]
            outflanks(p, o, r, c, dir, k),
{
    let n = (8 * r + c) as u64;
    let d = stride(dir);
    if rises(dir) {
        lemma_fill_left(p, o, d, n);
    } else {
        lemma_fill_right(p, o, d, n);
    }
    lemma_run(p, o, r, c, dir, 1);
    lemma_run(p, o, r, c, dir, 2);
    lemma_run(p, o, r, c, dir, 3);
    lemma_run(p, o, r, c, dir, 4);
    lemma_run(p, o, r, c, dir, 5);
    lemma_run(p, o, r, c, dir, 6);
    lemma_lined_up(p, o, r, c, dir, 1);
    lemma_lined_up(p, o, r, c, dir, 2);
    lemma_lined_up(p, o, r, c, dir, 3);
    lemma_lined_up(p, o, r, c, dir, 4);
    lemma_lined_up(p, o, r, c, dir, 5);
    lemma_lined_up(p, o, r, c, dir, 6);
    if exists|k: int| #[trigger] outflanks(p, o, r, c, dir, k) {
        let k = choose|k: int| #[trigger] outflanks(p, o, r, c, dir, k);
        lemma_lined_up(p, o, r, c, dir, k);
        assert(k == 1 || k == 2 || k == 3 || k == 4 || k == 5 || k == 6);
    }
}

/// The bit-parallel search marks exactly the legal squares.
pub proof fn lemma_parallel_moves(p: u64, o: u64)
    ensures
        marks_legal_squares(parallel_moves(p, o), p, o),
{
    let moves = parallel_moves(p, o);
    assert forall|r: int, c: int| on_board(r, c) implies (occupied(moves, r, c) <==> legal_square(
        p,
        o,
        r,
        c,
    )) by {
        let n = (8 * r + c) as u64;
        lemma_index(moves, r, c);
        lemma_index(p, r, c);
        lemma_index(o, r, c);
        lemma_union(
            candidates(p, o, 2),
            candidates(p, o, 5),
            candidates(p, o, 3),
            candidates(p, o, 4),
            candidates(p, o, 6),
            candidates(p, o, 1),
            candidates(p, o, 7),
            candidates(p, o, 0),
            p,
            o,
            n,
        );
        lemma_candidates(p, o, r, c, 0);
        lemma_candidates(p, o, r, c, 1);
        lemma_candidates(p, o, r, c, 2);
        lemma_candidates(p, o, r, c, 3);
        lemma_candidates(p, o, r, c, 4);
        lemma_candidates(p, o, r, c, 5);
        lemma_candidates(p, o, r, c, 6);
        lemma_candidates(p, o, r, c, 7);
        if legal_square(p, o, r, c) {
            let (dir, k) = choose|dir: int, k: int|
                is_direction(dir) && #[trigger] outflanks(p, o, r, c, dir, k);
            assert(outflanks(p, o, r, c, dir, k));
            assert(dir == 0 || dir == 1 || dir == 2 || dir == 3 || dir == 4 || dir == 5 || dir == 6
                || dir == 7);
        }
    }
}

/// The legal mask is well defined: it marks exactly the legal squares, and it
/// is the only mask that does.
pub proof fn lemma_legal_mask(p: u64, o: u64)
    ensures
        marks_legal_squares(legal_mask(p, o), p, o),
        forall|mask: u64| marks_legal_squares(mask, p, o) ==> mask == legal_mask(p, o),
{
    lemma_parallel_moves(p, o);
    assert forall|mask: u64| marks_legal_squares(mask, p, o) implies mask == legal_mask(p, o) by {
        lemma_masks_equal(mask, legal_mask(p, o));
    }
}

/// The list of the squares of the legal mask holds legal moves only.
pub proof fn lemma_listed_moves(p: u64, o: u64)
    ensures
        forall|i: int|
            0 <= i < set_bits(legal_mask(p, o), 64).len() ==> is_legal_move(
                p,
                o,
                #[trigger] set_bits(legal_mask(p, o), 64)[i],
            ),
{
    let mask = legal_mask(p, o);
    let listed = set_bits(mask, 64);
    lemma_legal_mask(p, o);
    lemma_set_bits(mask, 64);
    assert forall|i: int| 0 <= i < listed.len() implies is_legal_move(p, o, #[trigger] listed[i]) by {
        let (r, c) = choose|r: int, c: int|
            on_board(r, c) && 63 - (8 * r + c) < 64 && occupied(mask, r, c) && #[trigger] listed[i]
                == #[trigger] square(r, c);
        assert(legal_square(p, o, r, c));
    }
}

} // verus!
