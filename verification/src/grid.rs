//! The geometry of the 8×8 board and its encoding in a 64-bit mask.
//!
//! A square is named by its row and column, both counted from 0 at the
//! top-left corner. In a mask, square `(r, c)` is the bit `63 - (8 * r + c)`:
//! the most significant bit is the top-left corner, and the squares follow
//! row by row.
use vstd::prelude::*;

verus! {

/// The mask that holds the top-left corner alone.
pub const TOP_LEFT: u64 = 0x8000_0000_0000_0000;

/// Whether `(r, c)` names a square of the board.
pub open spec fn on_board(r: int, c: int) -> bool {
    0 <= r < 8 && 0 <= c < 8
}

/// The mask that holds the square `(r, c)` alone.
pub open spec fn square(r: int, c: int) -> u64
    recommends
        on_board(r, c),
{
    0x8000_0000_0000_0000u64 >> ((8 * r + c) as u64)
}

/// Whether `mask` holds the square `(r, c)`. Nothing lies off the board.
pub open spec fn occupied(mask: u64, r: int, c: int) -> bool {
    on_board(r, c) && mask & square(r, c) != 0
}

/// Whether `mask` holds exactly one square.
pub open spec fn is_square(mask: u64) -> bool {
    exists|r: int, c: int| on_board(r, c) && mask == #[trigger] square(r, c)
}

/// The eight directions, numbered clockwise from "up":
/// 0 up, 1 up-right, 2 right, 3 down-right, 4 down, 5 down-left, 6 left,
/// 7 up-left.
pub open spec fn is_direction(dir: int) -> bool {
    0 <= dir < 8
}

/// The row reached from row `r` after `j` steps in direction `dir`.
pub open spec fn ahead_row(dir: int, r: int, j: int) -> int {
    if dir == 0 || dir == 1 || dir == 7 {
        r - j
    } else if dir == 3 || dir == 4 || dir == 5 {
        r + j
    } else {
        r
    }
}

/// The column reached from column `c` after `j` steps in direction `dir`.
pub open spec fn ahead_col(dir: int, c: int, j: int) -> int {
    if dir == 1 || dir == 2 || dir == 3 {
        c + j
    } else if dir == 5 || dir == 6 || dir == 7 {
        c - j
    } else {
        c
    }
}

/// `mask` with every square moved one step in direction `dir`; squares that
/// would leave the board are dropped. For a `dir` that is no direction the
/// result is empty.
pub open spec fn shifted(mask: u64, dir: int) -> u64 {
    if dir == 0 {
        (mask << 8) & 0xffff_ffff_ffff_ff00
    } else if dir == 1 {
        (mask << 7) & 0x7f7f_7f7f_7f7f_7f00
    } else if dir == 2 {
        (mask >> 1) & 0x7f7f_7f7f_7f7f_7f7f
    } else if dir == 3 {
        (mask >> 9) & 0x007f_7f7f_7f7f_7f7f
    } else if dir == 4 {
        (mask >> 8) & 0x00ff_ffff_ffff_ffff
    } else if dir == 5 {
        (mask >> 7) & 0x00fe_fefe_fefe_fefe
    } else if dir == 6 {
        (mask << 1) & 0xfefe_fefe_fefe_fefe
    } else if dir == 7 {
        (mask << 9) & 0xfefe_fefe_fefe_fe00
    } else {
        0
    }
}

/// Whether `mask` holds the square with index `n`, where square `(r, c)` has
/// index `8 * r + c`.
pub open spec fn holds(mask: u64, n: u64) -> bool {
    mask & (0x8000_0000_0000_0000u64 >> n) != 0
}

/// The distance in square indices of one step in direction `dir`.
pub open spec fn stride(dir: int) -> u64 {
    if dir == 0 || dir == 4 {
        8
    } else if dir == 1 || dir == 5 {
        7
    } else if dir == 2 || dir == 6 {
        1
    } else {
        9
    }
}

/// Whether a step in direction `dir` raises the square index.
pub open spec fn rises(dir: int) -> bool {
    2 <= dir <= 5
}

/// Whether `t` steps from the square with index `n` towards higher indices,
/// `d` indices at a time, stay on the board.
pub open spec fn fits_up(d: u64, n: u64, t: u64) -> bool {
    &&& (d == 1 || n / 8 + t <= 7)
    &&& ((d == 1 || d == 9) ==> n % 8 + t <= 7)
    &&& (d == 7 ==> n % 8 >= t)
}

/// Whether `t` steps from the square with index `n` towards lower indices,
/// `d` indices at a time, stay on the board.
pub open spec fn fits_down(d: u64, n: u64, t: u64) -> bool {
    &&& (d == 1 || n / 8 >= t)
    &&& ((d == 1 || d == 9) ==> n % 8 >= t)
    &&& (d == 7 ==> n % 8 + t <= 7)
}

/// An on-board square has an index below 64, and `occupied` reads the bit of
/// that index.
pub proof fn lemma_index(mask: u64, r: int, c: int)
    requires
        on_board(r, c),
    ensures
        0 <= 8 * r + c < 64,
        (8 * r + c) / 8 == r,
        (8 * r + c) % 8 == c,
        occupied(mask, r, c) == holds(mask, (8 * r + c) as u64),
{
}

/// The squares of two masks joined, met or set against each other, square by
/// square.
pub proof fn lemma_square_algebra(a: u64, b: u64, n: u64)
    by (bit_vector)
    requires
        n < 64,
    ensures
        holds(a | b, n) == (holds(a, n) || holds(b, n)),
        holds(a & b, n) == (holds(a, n) && holds(b, n)),
        holds(a ^ b, n) == (holds(a, n) != holds(b, n)),
        holds(!a, n) == !holds(a, n),
        !holds(0, n),
{
}

/// Meeting two masks does not depend on their order, and nothing meets the
/// empty mask.
pub proof fn lemma_and_commutes(a: u64, b: u64)
    by (bit_vector)
    ensures
        a & b == b & a,
        0 & a == 0,
        a & 0 == 0,
{
}

/// Joining two masks does not depend on their order.
pub proof fn lemma_or_commutes(a: u64, b: u64)
    by (bit_vector)
    ensures
        a | b == b | a,
{
}

/// A mask joined with squares that it does not hold leaves fewer squares
/// free.
pub proof fn lemma_fewer_free(mask: u64, more: u64)
    by (bit_vector)
    requires
        mask & more == 0,
        more != 0,
    ensures
        !(mask | more) < !mask,
{
}

/// A one-square mask holds its own square and no other.
pub proof fn lemma_single_square(m: u64, n: u64)
    by (bit_vector)
    requires
        m < 64,
        n < 64,
    ensures
        holds(0x8000_0000_0000_0000u64 >> m, n) == (m == n),
        0x8000_0000_0000_0000u64 >> m != 0,
{
}

/// One step in a direction, square by square: the shifted mask holds a square
/// exactly if the mask holds the square one step back.
pub proof fn lemma_shifted_square(mask: u64, dir: u64, n: u64)
    by (bit_vector)
    requires
        n < 64,
        dir < 8,
    ensures
        dir == 0 ==> (holds((mask << 8) & 0xffff_ffff_ffff_ff00, n) == (fits_up(8, n, 1) && holds(
            mask,
            (n + 8) as u64,
        ))),
        dir == 1 ==> (holds((mask << 7) & 0x7f7f_7f7f_7f7f_7f00, n) == (fits_up(7, n, 1) && holds(
            mask,
            (n + 7) as u64,
        ))),
        dir == 2 ==> (holds((mask >> 1) & 0x7f7f_7f7f_7f7f_7f7f, n) == (fits_down(1, n, 1) && holds(
            mask,
            (n - 1) as u64,
        ))),
        dir == 3 ==> (holds((mask >> 9) & 0x007f_7f7f_7f7f_7f7f, n) == (fits_down(9, n, 1) && holds(
            mask,
            (n - 9) as u64,
        ))),
        dir == 4 ==> (holds((mask >> 8) & 0x00ff_ffff_ffff_ffff, n) == (fits_down(8, n, 1) && holds(
            mask,
            (n - 8) as u64,
        ))),
        dir == 5 ==> (holds((mask >> 7) & 0x00fe_fefe_fefe_fefe, n) == (fits_down(7, n, 1) && holds(
            mask,
            (n - 7) as u64,
        ))),
        dir == 6 ==> (holds((mask << 1) & 0xfefe_fefe_fefe_fefe, n) == (fits_up(1, n, 1) && holds(
            mask,
            (n + 1) as u64,
        ))),
        dir == 7 ==> (holds((mask << 9) & 0xfefe_fefe_fefe_fe00, n) == (fits_up(9, n, 1) && holds(
            mask,
            (n + 9) as u64,
        ))),
{
}

/// Joining, meeting and crossing two masks, square by square, and the empty
/// mask.
pub proof fn lemma_occupied_algebra(a: u64, b: u64)
    ensures
        forall|r: int, c: int| #[trigger]
            occupied(a | b, r, c) == (occupied(a, r, c) || occupied(b, r, c)),
        forall|r: int, c: int| #[trigger]
            occupied(a & b, r, c) == (occupied(a, r, c) && occupied(b, r, c)),
        forall|r: int, c: int| #[trigger]
            occupied(a ^ b, r, c) == (occupied(a, r, c) != occupied(b, r, c)),
        forall|r: int, c: int| !#[trigger] occupied(0, r, c),
{
    assert forall|r: int, c: int| #[trigger]
        occupied(a | b, r, c) == (occupied(a, r, c) || occupied(b, r, c)) by {
        if on_board(r, c) {
            lemma_square_algebra(a, b, (8 * r + c) as u64);
        }
    }
    assert forall|r: int, c: int| #[trigger]
        occupied(a & b, r, c) == (occupied(a, r, c) && occupied(b, r, c)) by {
        if on_board(r, c) {
            lemma_square_algebra(a, b, (8 * r + c) as u64);
        }
    }
    assert forall|r: int, c: int| #[trigger]
        occupied(a ^ b, r, c) == (occupied(a, r, c) != occupied(b, r, c)) by {
        if on_board(r, c) {
            lemma_square_algebra(a, b, (8 * r + c) as u64);
        }
    }
    assert forall|r: int, c: int| !#[trigger] occupied(0, r, c) by {
        if on_board(r, c) {
            lemma_square_algebra(a, b, (8 * r + c) as u64);
        }
    }
}

/// A one-square mask holds its own square and no other, and is not empty.
pub proof fn lemma_square(r: int, c: int)
    requires
        on_board(r, c),
    ensures
        square(r, c) != 0,
        forall|sr: int, sc: int| #[trigger]
            occupied(square(r, c), sr, sc) == (sr == r && sc == c),
{
    lemma_single_square((8 * r + c) as u64, 0);
    assert forall|sr: int, sc: int| #[trigger]
        occupied(square(r, c), sr, sc) == (sr == r && sc == c) by {
        if on_board(sr, sc) {
            lemma_single_square((8 * r + c) as u64, (8 * sr + sc) as u64);
        }
    }
}

/// One step in a direction by rows and columns: the shifted mask holds a
/// square exactly if the mask holds the square one step back.
pub proof fn lemma_shifted(mask: u64, dir: int)
    requires
        is_direction(dir),
    ensures
        forall|r: int, c: int| #[trigger]
            occupied(shifted(mask, dir), r, c) == (on_board(r, c) && occupied(
                mask,
                ahead_row(dir, r, -1),
                ahead_col(dir, c, -1),
            )),
{
    assert forall|r: int, c: int| #[trigger]
        occupied(shifted(mask, dir), r, c) == (on_board(r, c) && occupied(
            mask,
            ahead_row(dir, r, -1),
            ahead_col(dir, c, -1),
        )) by {
        if on_board(r, c) {
            let n = (8 * r + c) as u64;
            lemma_shifted_square(mask, dir as u64, n);
            let br = ahead_row(dir, r, -1);
            let bc = ahead_col(dir, c, -1);
            if on_board(br, bc) {
                lemma_index(mask, br, bc);
            }
        }
    }
}

/// A square moved one step in a direction is the next square in that
/// direction, or nothing if that lies off the board.
pub proof fn lemma_shifted_one(r: int, c: int, dir: int)
    requires
        on_board(r, c),
        is_direction(dir),
    ensures
        shifted(square(r, c), dir) == if on_board(ahead_row(dir, r, 1), ahead_col(dir, c, 1)) {
            square(ahead_row(dir, r, 1), ahead_col(dir, c, 1))
        } else {
            0
        },
{
    let nr = ahead_row(dir, r, 1);
    let nc = ahead_col(dir, c, 1);
    let next = if on_board(nr, nc) {
        square(nr, nc)
    } else {
        0
    };
    lemma_shifted(square(r, c), dir);
    lemma_square(r, c);
    lemma_occupied_algebra(0, 0);
    if on_board(nr, nc) {
        lemma_square(nr, nc);
    }
    assert forall|sr: int, sc: int| on_board(sr, sc) implies occupied(
        shifted(square(r, c), dir),
        sr,
        sc,
    ) == occupied(next, sr, sc) by {}
    lemma_masks_equal(shifted(square(r, c), dir), next);
}

/// `mask` moved `j` steps in direction `dir`.
pub open spec fn shifted_by(mask: u64, dir: int, j: nat) -> u64
    decreases j,
{
    if j == 0 {
        mask
    } else {
        shifted(shifted_by(mask, dir, (j - 1) as nat), dir)
    }
}

/// After `j` steps a mask holds only squares that have `j` squares of the
/// board behind them; after eight steps it is empty.
pub proof fn lemma_shifted_by(mask: u64, dir: int, j: nat)
    requires
        is_direction(dir),
    ensures
        forall|r: int, c: int| #[trigger]
            occupied(shifted_by(mask, dir, j), r, c) ==> on_board(
                ahead_row(dir, r, -(j as int)),
                ahead_col(dir, c, -(j as int)),
            ),
        j >= 8 ==> shifted_by(mask, dir, j) == 0,
    decreases j,
{
    if j > 0 {
        let before = shifted_by(mask, dir, (j - 1) as nat);
        lemma_shifted_by(mask, dir, (j - 1) as nat);
        lemma_shifted(before, dir);
        assert forall|r: int, c: int| #[trigger]
            occupied(shifted_by(mask, dir, j), r, c) implies on_board(
            ahead_row(dir, r, -(j as int)),
            ahead_col(dir, c, -(j as int)),
        ) by {
            assert(occupied(before, ahead_row(dir, r, -1), ahead_col(dir, c, -1)));
        }
    }
    if j >= 8 {
        lemma_occupied_algebra(0, 0);
        assert forall|r: int, c: int| on_board(r, c) implies occupied(
            shifted_by(mask, dir, j),
            r,
            c,
        ) == occupied(0, r, c) by {}
        lemma_masks_equal(shifted_by(mask, dir, j), 0);
    }
}

/// The masks of the squares of `mask` among the `n` squares counted from the
/// bottom-right corner, from that corner on: by rising value.
pub open spec fn set_bits(mask: u64, n: nat) -> Seq<u64>
    decreases n,
{
    if n == 0 {
        Seq::empty()
    } else {
        let rest = set_bits(mask, (n - 1) as nat);
        let b = 1u64 << ((n - 1) as u64);
        if mask & b != 0 {
            rest.push(b)
        } else {
            rest
        }
    }
}

/// Bit `b` is the square with index `63 - b`.
pub proof fn lemma_bit(mask: u64, b: u64)
    by (bit_vector)
    requires
        b < 64,
    ensures
        1u64 << b == 0x8000_0000_0000_0000u64 >> ((63 - b) as u64),
        mask & (1u64 << b) != 0 ==> mask & (1u64 << b) == 1u64 << b,
        (mask & (1u64 << b) != 0) == holds(mask, (63 - b) as u64),
        1u64 << b != 0,
{
}

/// A higher bit is a greater mask.
pub proof fn lemma_bit_order(a: u64, b: u64)
    by (bit_vector)
    requires
        a < b < 64,
    ensures
        (1u64 << a) < (1u64 << b),
{
}

/// What `set_bits` holds: one-square masks of squares of `mask`, each such
/// square among the `n` counted, by strictly rising value.
pub proof fn lemma_set_bits(mask: u64, n: nat)
    requires
        n <= 64,
    ensures
        set_bits(mask, n).len() <= n,
        forall|i: int|
            0 <= i < set_bits(mask, n).len() ==> exists|r: int, c: int|
                on_board(r, c) && 63 - (8 * r + c) < n && occupied(mask, r, c) && #[trigger] set_bits(
                    mask,
                    n,
                )[i] == #[trigger] square(r, c),
        forall|r: int, c: int|
            on_board(r, c) && 63 - (8 * r + c) < n && occupied(mask, r, c) ==> set_bits(
                mask,
                n,
            ).contains(#[trigger] square(r, c)),
        forall|i: int|
            0 <= i < set_bits(mask, n).len() ==> #[trigger] set_bits(mask, n)[i] < (1u64 << (n as u64))
                || n == 64,
        forall|i: int, j: int|
            0 <= i < j < set_bits(mask, n).len() ==> set_bits(mask, n)[i] < set_bits(mask, n)[j],
    decreases n,
{
    if n > 0 {
        let rest = set_bits(mask, (n - 1) as nat);
        let b = (n - 1) as u64;
        let all = set_bits(mask, n);
        lemma_set_bits(mask, (n - 1) as nat);
        lemma_bit(mask, b);
        if n < 64 {
            lemma_bit_order(b, n as u64);
        }
        let r = (63 - b) / 8;
        let c = (63 - b) % 8;
        lemma_index(mask, r, c);
        assert(square(r, c) == 1u64 << b);
        assert forall|i: int| 0 <= i < all.len() implies exists|r: int, c: int|
            on_board(r, c) && 63 - (8 * r + c) < n && occupied(mask, r, c) && #[trigger] all[i]
                == #[trigger] square(r, c) by {
            if i < rest.len() {
                let (r0, c0) = choose|r0: int, c0: int|
                    on_board(r0, c0) && 63 - (8 * r0 + c0) < n - 1 && occupied(mask, r0, c0)
                        && #[trigger] rest[i] == #[trigger] square(r0, c0);
                assert(all[i] == square(r0, c0));
            } else {
                assert(all[i] == square(r, c));
            }
        }
        assert forall|sr: int, sc: int|
            on_board(sr, sc) && 63 - (8 * sr + sc) < n && occupied(mask, sr, sc) implies all.contains(
            #[trigger] square(sr, sc),
        ) by {
            if 63 - (8 * sr + sc) < n - 1 {
                let i = choose|i: int| 0 <= i < rest.len() && rest[i] == square(sr, sc);
                assert(all[i] == square(sr, sc));
            } else {
                assert(sr == r && sc == c);
                assert(all[all.len() - 1] == square(sr, sc));
            }
        }
        assert forall|i: int| 0 <= i < all.len() implies #[trigger] all[i] < (1u64 << (n as u64))
            || n == 64 by {
            if i < rest.len() {
                assert(rest[i] < (1u64 << b));
            }
        }
        assert forall|i: int, j: int| 0 <= i < j < all.len() implies all[i] < all[j] by {
            if j >= rest.len() {
                assert(rest[i] < (1u64 << b));
            }
        }
    }
}

/// Only the empty mask has no squares to list.
pub proof fn lemma_no_bits(mask: u64)
    ensures
        (set_bits(mask, 64).len() == 0) == (mask == 0),
{
    lemma_set_bits(mask, 64);
    lemma_occupied_algebra(0, 0);
    let listed = set_bits(mask, 64);
    if listed.len() == 0 {
        assert forall|r: int, c: int| on_board(r, c) implies occupied(mask, r, c) == occupied(
            0,
            r,
            c,
        ) by {
            if occupied(mask, r, c) {
                assert(listed.contains(square(r, c)));
            }
        }
        lemma_masks_equal(mask, 0);
    } else {
        let (r, c) = choose|r: int, c: int|
            on_board(r, c) && 63 - (8 * r + c) < 64 && occupied(mask, r, c) && #[trigger] listed[0]
                == #[trigger] square(r, c);
        assert(occupied(mask, r, c));
    }
}

/// The number of squares that `mask` holds.
pub open spec fn disk_count(mask: u64) -> nat {
    set_bits(mask, 64).len()
}

proof fn lemma_bit_joined(mask: u64, b: u64, i: u64)
    by (bit_vector)
    requires
        b < 64,
        i < 64,
    ensures
        ((mask | (1u64 << b)) & (1u64 << i) != 0) == (mask & (1u64 << i) != 0 || i == b),
{
}

proof fn lemma_count_joined(mask: u64, b: u64, n: nat)
    requires
        b < 64,
        n <= 64,
        mask & (1u64 << b) == 0,
    ensures
        set_bits(mask | (1u64 << b), n).len() == set_bits(mask, n).len() + if b < n {
            1nat
        } else {
            0nat
        },
    decreases n,
{
    if n > 0 {
        lemma_count_joined(mask, b, (n - 1) as nat);
        lemma_bit_joined(mask, b, (n - 1) as u64);
    }
}

/// A mask joined with a square that it does not hold counts one more.
pub proof fn lemma_count_with_square(mask: u64, r: int, c: int)
    requires
        on_board(r, c),
        !occupied(mask, r, c),
    ensures
        disk_count(mask | square(r, c)) == disk_count(mask) + 1,
{
    let b = (63 - (8 * r + c)) as u64;
    lemma_bit(mask, b);
    lemma_index(mask, r, c);
    lemma_count_joined(mask, b, 64);
}

/// `u64::count_ones` returns the number of bits set in `mask`, which is the
/// number of squares that the mask holds.
pub assume_specification[ u64::count_ones ](mask: u64) -> (n: u32)
    ensures
        n == disk_count(mask),
;

/// `mask` with its eight bytes in reverse order.
pub open spec fn bytes_swapped(mask: u64) -> u64 {
    ((mask & 0xff) << 56) | ((mask & 0xff00) << 40) | ((mask & 0xff_0000) << 24) | ((mask
        & 0xff00_0000) << 8) | ((mask >> 8) & 0xff00_0000) | ((mask >> 24) & 0xff_0000) | ((mask
        >> 40) & 0xff00) | ((mask >> 56) & 0xff)
}

/// `i64::swap_bytes` reverses the order of the eight bytes of a number.
pub assume_specification[ i64::swap_bytes ](x: i64) -> (swapped: i64)
    ensures
        swapped as u64 == bytes_swapped(x as u64),
;

proof fn lemma_bytes_swapped(mask: u64, n: u64)
    by (bit_vector)
    requires
        n < 64,
    ensures
        holds(bytes_swapped(mask), n) == holds(mask, (8 * (7 - n / 8) + n % 8) as u64),
{
}

/// The position turned upside down: the top row becomes the bottom row, and
/// so on. The 64 bits of the number are read as a mask.
pub fn vertical_mirror(x: i64) -> (mirrored: i64)
    ensures
        forall|r: int, c: int|
            on_board(r, c) ==> occupied(mirrored as u64, r, c) == occupied(x as u64, 7 - r, c),
{
    proof {
        assert forall|r: int, c: int| on_board(r, c) implies occupied(
            bytes_swapped(x as u64),
            r,
            c,
        ) == occupied(x as u64, 7 - r, c) by {
            lemma_index(bytes_swapped(x as u64), r, c);
            lemma_index(x as u64, 7 - r, c);
            lemma_bytes_swapped(x as u64, (8 * r + c) as u64);
        }
    }
    x.swap_bytes()
}

/// Two masks that agree on the 64 squares are equal.
pub proof fn lemma_masks_equal(a: u64, b: u64)
    requires
        forall|r: int, c: int| on_board(r, c) ==> occupied(a, r, c) == occupied(b, r, c),
    ensures
        a == b,
{
    assert forall|n: u64| n < 64 implies holds(a, n) == holds(b, n) by {
        let r = (n / 8) as int;
        let c = (n % 8) as int;
        lemma_index(a, r, c);
        lemma_index(b, r, c);
        assert(occupied(a, r, c) == occupied(b, r, c));
    }
    lemma_rows_equal(a, b, 0);
    lemma_rows_equal(a, b, 1);
    lemma_rows_equal(a, b, 2);
    lemma_rows_equal(a, b, 3);
    lemma_rows_equal(a, b, 4);
    lemma_rows_equal(a, b, 5);
    lemma_rows_equal(a, b, 6);
    lemma_rows_equal(a, b, 7);
    lemma_rows_cover(a, b);
}

/// The byte that holds row `r` of a mask.
pub open spec fn row_bits(mask: u64, r: u64) -> u64 {
    (mask >> ((8 * (7 - r)) as u64)) & 0xff
}

proof fn lemma_rows_equal(a: u64, b: u64, r: u64)
    requires
        r < 8,
        forall|n: u64| n < 64 ==> holds(a, n) == holds(b, n),
    ensures
        row_bits(a, r) == row_bits(b, r),
{
    let n: u64 = (8 * r) as u64;
    assert(holds(a, n) == holds(b, n));
    assert(holds(a, (n + 1) as u64) == holds(b, (n + 1) as u64));
    assert(holds(a, (n + 2) as u64) == holds(b, (n + 2) as u64));
    assert(holds(a, (n + 3) as u64) == holds(b, (n + 3) as u64));
    assert(holds(a, (n + 4) as u64) == holds(b, (n + 4) as u64));
    assert(holds(a, (n + 5) as u64) == holds(b, (n + 5) as u64));
    assert(holds(a, (n + 6) as u64) == holds(b, (n + 6) as u64));
    assert(holds(a, (n + 7) as u64) == holds(b, (n + 7) as u64));
    lemma_row_from_squares(a, b, r);
}

proof fn lemma_row_from_squares(a: u64, b: u64, r: u64)
    by (bit_vector)
    requires
        r < 8,
        holds(a, (8 * r) as u64) == holds(b, (8 * r) as u64),
        holds(a, (8 * r + 1) as u64) == holds(b, (8 * r + 1) as u64),
        holds(a, (8 * r + 2) as u64) == holds(b, (8 * r + 2) as u64),
        holds(a, (8 * r + 3) as u64) == holds(b, (8 * r + 3) as u64),
        holds(a, (8 * r + 4) as u64) == holds(b, (8 * r + 4) as u64),
        holds(a, (8 * r + 5) as u64) == holds(b, (8 * r + 5) as u64),
        holds(a, (8 * r + 6) as u64) == holds(b, (8 * r + 6) as u64),
        holds(a, (8 * r + 7) as u64) == holds(b, (8 * r + 7) as u64),
    ensures
        row_bits(a, r) == row_bits(b, r),
{
}

proof fn lemma_rows_cover(a: u64, b: u64)
    by (bit_vector)
    requires
        row_bits(a, 0) == row_bits(b, 0),
        row_bits(a, 1) == row_bits(b, 1),
        row_bits(a, 2) == row_bits(b, 2),
        row_bits(a, 3) == row_bits(b, 3),
        row_bits(a, 4) == row_bits(b, 4),
        row_bits(a, 5) == row_bits(b, 5),
        row_bits(a, 6) == row_bits(b, 6),
        row_bits(a, 7) == row_bits(b, 7),
    ensures
        a == b,
{
}

} // verus!
