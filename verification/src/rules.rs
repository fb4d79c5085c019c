//! The rules of the game, stated square by square.
//!
//! `p` is always the mask of the side that moves, `o` that of the other
//! side. Nothing here asks that the two be disjoint.
use crate::grid::{
    ahead_col, ahead_row, is_direction, lemma_masks_equal, lemma_occupied_algebra, lemma_square,
    occupied, on_board, square,
};
use vstd::prelude::*;

verus! {

/// Seen from `(r, c)` in direction `dir`, the next `k` squares hold disks of
/// `o` and the square after them holds a disk of `p`: a disk placed on
/// `(r, c)` by `p` would flip those `k` disks.
pub open spec fn outflanks(p: u64, o: u64, r: int, c: int, dir: int, k: int) -> bool {
    &&& k >= 1
    &&& forall|j: int|
        1 <= j <= k ==> #[trigger] occupied(o, ahead_row(dir, r, j), ahead_col(dir, c, j))
    &&& occupied(p, ahead_row(dir, r, k + 1), ahead_col(dir, c, k + 1))
}

/// Whether the side `p` may place a disk on `(r, c)`: the square is empty and
/// in at least one direction the disk would flip something.
pub open spec fn legal_square(p: u64, o: u64, r: int, c: int) -> bool {
    &&& on_board(r, c)
    &&& !occupied(p, r, c)
    &&& !occupied(o, r, c)
    &&& exists|dir: int, k: int| is_direction(dir) && #[trigger] outflanks(p, o, r, c, dir, k)
}

/// Whether `m` is the one-square mask of a square on which `p` may place a
/// disk.
pub open spec fn is_legal_move(p: u64, o: u64, m: u64) -> bool {
    exists|r: int, c: int| on_board(r, c) && m == #[trigger] square(r, c) && legal_square(p, o, r, c)
}

/// Whether `mask` holds exactly the squares on which `p` may place a disk.
pub open spec fn marks_legal_squares(mask: u64, p: u64, o: u64) -> bool {
    forall|r: int, c: int| on_board(r, c) ==> (occupied(mask, r, c) <==> legal_square(p, o, r, c))
}

/// The mask of the squares on which `p` may place a disk.
pub open spec fn legal_mask(p: u64, o: u64) -> u64 {
    choose|mask: u64| marks_legal_squares(mask, p, o)
}

/// The number of disks of `o` that lie in an unbroken line from `(r, c)` in
/// direction `dir`, starting `j` steps away.
pub open spec fn run_length(o: u64, r: int, c: int, dir: int, j: int) -> int
    decreases 8 - j,
{
    if 1 <= j < 8 && occupied(o, ahead_row(dir, r, j), ahead_col(dir, c, j)) {
        1 + run_length(o, r, c, dir, j + 1)
    } else {
        0
    }
}

/// The number of disks that a disk placed on `(r, c)` by `p` flips in
/// direction `dir`: the whole unbroken line of `o`, if a disk of `p` closes
/// it, and none otherwise.
pub open spec fn flips(p: u64, o: u64, r: int, c: int, dir: int) -> int {
    let k = run_length(o, r, c, dir, 1);
    if occupied(p, ahead_row(dir, r, k + 1), ahead_col(dir, c, k + 1)) {
        k
    } else {
        0
    }
}

/// The number of steps of a king from `(r, c)` to `(sr, sc)`.
pub open spec fn distance(r: int, c: int, sr: int, sc: int) -> int {
    let dr = if sr >= r {
        sr - r
    } else {
        r - sr
    };
    let dc = if sc >= c {
        sc - c
    } else {
        c - sc
    };
    if dr >= dc {
        dr
    } else {
        dc
    }
}

/// Whether `(fr, fc)` lies in direction `dir` from `(r, c)`, among the disks
/// that a disk placed on `(r, c)` by `p` flips in that direction.
pub open spec fn flipped_towards(
    p: u64,
    o: u64,
    r: int,
    c: int,
    dir: int,
    fr: int,
    fc: int,
) -> bool {
    let j = distance(r, c, fr, fc);
    1 <= j <= flips(p, o, r, c, dir) && fr == ahead_row(dir, r, j) && fc == ahead_col(dir, c, j)
}

/// Whether a disk placed on `(r, c)` by `p` flips the disk on `(fr, fc)`.
pub open spec fn flipped(p: u64, o: u64, r: int, c: int, fr: int, fc: int) -> bool {
    exists|dir: int| is_direction(dir) && #[trigger] flipped_towards(p, o, r, c, dir, fr, fc)
}

/// Whether a disk placed on `(r, c)` by `p` flips anything.
pub open spec fn flips_some(p: u64, o: u64, r: int, c: int) -> bool {
    exists|dir: int| is_direction(dir) && #[trigger] flips(p, o, r, c, dir) >= 1
}

/// Whether `(next_p, next_o)` is the position that follows when `p` places a
/// disk on `(r, c)`: the square and every flipped square change hands in
/// `p`'s mask, and every flipped square in `o`'s.
pub open spec fn follows(p: u64, o: u64, r: int, c: int, next_p: u64, next_o: u64) -> bool {
    forall|sr: int, sc: int|
        on_board(sr, sc) ==> {
            &&& occupied(next_p, sr, sc) == (occupied(p, sr, sc) != ((sr == r && sc == c)
                || flipped(p, o, r, c, sr, sc)))
            &&& occupied(next_o, sr, sc) == (occupied(o, sr, sc) != flipped(p, o, r, c, sr, sc))
        }
}


/// The unbroken line of `o` from `(r, c)`, counted from step `i`, ends just
/// before the first step `j` whose square does not hold a disk of `o`.
pub proof fn lemma_run_length(o: u64, r: int, c: int, dir: int, i: int, j: int)
    requires
        1 <= i <= j <= 8,
        forall|s: int| i <= s < j ==> #[trigger] occupied(o, ahead_row(dir, r, s), ahead_col(dir, c, s)),
        !occupied(o, ahead_row(dir, r, j), ahead_col(dir, c, j)),
    ensures
        run_length(o, r, c, dir, i) == j - i,
    decreases j - i,
{
    if i < j {
        assert(occupied(o, ahead_row(dir, r, i), ahead_col(dir, c, i)));
        lemma_run_length(o, r, c, dir, i + 1, j);
    }
}

/// The unbroken line of `o` from `(r, c)` holds disks of `o` throughout, is
/// at most seven long, and the square after it holds none.
pub proof fn lemma_run_length_meaning(o: u64, r: int, c: int, dir: int, i: int)
    requires
        1 <= i <= 8,
    ensures
        0 <= run_length(o, r, c, dir, i) <= 8 - i,
        forall|s: int|
            i <= s < i + run_length(o, r, c, dir, i) ==> #[trigger] occupied(
                o,
                ahead_row(dir, r, s),
                ahead_col(dir, c, s),
            ),
        i + run_length(o, r, c, dir, i) < 8 ==> !occupied(
            o,
            ahead_row(dir, r, i + run_length(o, r, c, dir, i)),
            ahead_col(dir, c, i + run_length(o, r, c, dir, i)),
        ),
    decreases 8 - i,
{
    if i < 8 && occupied(o, ahead_row(dir, r, i), ahead_col(dir, c, i)) {
        lemma_run_length_meaning(o, r, c, dir, i + 1);
    }
}

/// Every flipped square held a disk of `o`.
pub proof fn lemma_flipped_was_other(p: u64, o: u64, r: int, c: int, fr: int, fc: int)
    requires
        flipped(p, o, r, c, fr, fc),
    ensures
        occupied(o, fr, fc),
        !(fr == r && fc == c),
{
    let dir = choose|dir: int| is_direction(dir) && #[trigger] flipped_towards(p, o, r, c, dir, fr, fc);
    lemma_run_length_meaning(o, r, c, dir, 1);
}

/// Two masks share no square exactly if their meet is empty.
pub proof fn lemma_disjoint(a: u64, b: u64)
    ensures
        (a & b == 0) <==> (forall|r: int, c: int| !(#[trigger] occupied(a, r, c) && occupied(b, r, c))),
{
    lemma_occupied_algebra(a, b);
    if forall|r: int, c: int| !(#[trigger] occupied(a, r, c) && occupied(b, r, c)) {
        assert forall|r: int, c: int| on_board(r, c) implies occupied(a & b, r, c) == occupied(
            0,
            r,
            c,
        ) by {
            assert(!(occupied(a, r, c) && occupied(b, r, c)));
        }
        lemma_masks_equal(a & b, 0);
    }
    if a & b == 0 {
        assert forall|r: int, c: int| !(#[trigger] occupied(a, r, c) && occupied(b, r, c)) by {
            assert(!occupied(a & b, r, c));
        }
    }
}

/// A disk placed on an empty square of a position without doubly held
/// squares leaves no square doubly held, and adds the one square to the
/// held squares: flipped disks change colour, not place.
pub proof fn lemma_follows_keeps_disks(p: u64, o: u64, r: int, c: int, next_p: u64, next_o: u64)
    requires
        on_board(r, c),
        p & o == 0,
        !occupied(o, r, c),
        follows(p, o, r, c, next_p, next_o),
    ensures
        next_p & next_o == 0,
        !occupied(p, r, c) ==> next_p | next_o == (p | o) | square(r, c),
        !occupied(p, r, c) ==> (p | o) & square(r, c) == 0,
{
    lemma_disjoint(p, o);
    lemma_disjoint(next_p, next_o);
    lemma_occupied_algebra(next_p, next_o);
    lemma_occupied_algebra(p, o);
    lemma_occupied_algebra(p | o, square(r, c));
    lemma_square(r, c);
    assert forall|sr: int, sc: int| !(#[trigger] occupied(next_p, sr, sc) && occupied(
        next_o,
        sr,
        sc,
    )) by {
        if on_board(sr, sc) {
            assert(!(occupied(p, sr, sc) && occupied(o, sr, sc)));
            if flipped(p, o, r, c, sr, sc) {
                lemma_flipped_was_other(p, o, r, c, sr, sc);
            }
        }
    }
    if !occupied(p, r, c) {
        assert forall|sr: int, sc: int| on_board(sr, sc) implies occupied(next_p | next_o, sr, sc)
            == occupied((p | o) | square(r, c), sr, sc) by {
            assert(!(occupied(p, sr, sc) && occupied(o, sr, sc)));
            if flipped(p, o, r, c, sr, sc) {
                lemma_flipped_was_other(p, o, r, c, sr, sc);
            }
        }
        lemma_masks_equal(next_p | next_o, (p | o) | square(r, c));
        assert forall|sr: int, sc: int| on_board(sr, sc) implies occupied(
            (p | o) & square(r, c),
            sr,
            sc,
        ) == occupied(0, sr, sc) by {}
        lemma_masks_equal((p | o) & square(r, c), 0);
    }
}

/// A legal square is empty, and a disk placed there flips something; on a
/// position without doubly held squares the converse holds too.
pub proof fn lemma_legal_flips(p: u64, o: u64, r: int, c: int)
    requires
        on_board(r, c),
    ensures
        p & o == 0 ==> (legal_square(p, o, r, c) <==> (!occupied(p, r, c) && !occupied(o, r, c)
            && flips_some(p, o, r, c))),
{
    if p & o == 0 {
        lemma_disjoint(p, o);
        if legal_square(p, o, r, c) {
            let (dir, k) = choose|dir: int, k: int|
                is_direction(dir) && #[trigger] outflanks(p, o, r, c, dir, k);
            lemma_run_length_meaning(o, r, c, dir, 1);
            let run = run_length(o, r, c, dir, 1);
            assert(!(occupied(p, ahead_row(dir, r, k + 1), ahead_col(dir, c, k + 1)) && occupied(
                o,
                ahead_row(dir, r, k + 1),
                ahead_col(dir, c, k + 1),
            )));
            if run < k {
                assert(occupied(o, ahead_row(dir, r, 1 + run), ahead_col(dir, c, 1 + run)));
            }
            if run > k {
                assert(occupied(o, ahead_row(dir, r, k + 1), ahead_col(dir, c, k + 1)));
            }
            assert(run == k);
            assert(flips(p, o, r, c, dir) >= 1);
        }
        if !occupied(p, r, c) && !occupied(o, r, c) && flips_some(p, o, r, c) {
            let dir = choose|dir: int| is_direction(dir) && #[trigger] flips(p, o, r, c, dir) >= 1;
            lemma_run_length_meaning(o, r, c, dir, 1);
            assert(outflanks(p, o, r, c, dir, run_length(o, r, c, dir, 1)));
        }
    }
}

} // verus!
