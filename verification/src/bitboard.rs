//! A position as two 64-bit masks and the side to move, with move
//! generation and move application in bit operations.
use crate::flood::{lemma_legal_mask, lemma_parallel_moves, parallel_moves, INNER_COLUMNS};
use crate::grid::{
    ahead_col, ahead_row, disk_count, is_direction, is_square, lemma_and_commutes, lemma_bit,
    lemma_count_with_square, lemma_fewer_free, lemma_index, lemma_masks_equal, lemma_no_bits,
    lemma_occupied_algebra, lemma_or_commutes, lemma_set_bits, lemma_shifted, lemma_shifted_by,
    lemma_shifted_one, lemma_square, occupied, on_board, set_bits, shifted, shifted_by, square,
    TOP_LEFT,
};
use crate::rules::{
    distance, flipped, flipped_towards, follows, is_legal_move, legal_mask, legal_square,
    lemma_disjoint, lemma_follows_keeps_disks, lemma_run_length, marks_legal_squares, run_length,
};
use crate::random::RandomSource;
use vstd::prelude::*;
use vstd::string::StringExecFns;

verus! {

/// The colour that a character of a board snapshot stands for: 0 for `'0'`,
/// black; 1 for `'1'`, white; and 2, no disk, for anything else.
pub open spec fn colour_of(ch: char) -> int {
    if ch == '0' {
        0
    } else if ch == '1' {
        1
    } else {
        2
    }
}

/// The character at row `r`, column `c` of a snapshot, or `'.'` where the
/// snapshot has none.
pub open spec fn snapshot_char(rows: Seq<String>, r: int, c: int) -> char {
    if 0 <= r < rows.len() && 0 <= c < rows[r]@.len() {
        rows[r]@[c]
    } else {
        '.'
    }
}

/// Whether a snapshot fits the board: at most eight rows of at most eight
/// characters.
pub open spec fn fits_board(rows: Seq<String>) -> bool {
    rows.len() <= 8 && forall|r: int| 0 <= r < rows.len() ==> (#[trigger] rows[r])@.len() <= 8
}

/// The square `j` steps from `(r, c)` in direction `dir`, or the empty mask
/// if that lies off the board.
pub open spec fn next_square(r: int, c: int, dir: int, j: int) -> u64 {
    if on_board(ahead_row(dir, r, j), ahead_col(dir, c, j)) {
        square(ahead_row(dir, r, j), ahead_col(dir, c, j))
    } else {
        0
    }
}

/// Whether `(sr, sc)` lies in direction `dir` from `(r, c)`, at least one and
/// at most `reach` steps away.
pub open spec fn within(r: int, c: int, dir: int, reach: int, sr: int, sc: int) -> bool {
    let j = distance(r, c, sr, sc);
    1 <= j <= reach && sr == ahead_row(dir, r, j) && sc == ahead_col(dir, c, j)
}

/// Whether a disk placed on `(r, c)` by `p` flips the disk on `(fr, fc)` in
/// one of the directions below `k`.
pub open spec fn flipped_below(p: u64, o: u64, r: int, c: int, k: int, fr: int, fc: int) -> bool {
    exists|dir: int| 0 <= dir < k && #[trigger] flipped_towards(p, o, r, c, dir, fr, fc)
}

/// Whether each position of `line` but the last is not final and is
/// followed by the position after one turn.
pub open spec fn is_game(line: Seq<BitBoard>) -> bool {
    line.len() >= 1 && forall|i: int| 0 <= i < line.len() - 1 ==> #[trigger] turn_at(line, i)
}

/// Whether the game goes on after position `i` of `line`, by one turn.
pub open spec fn turn_at(line: Seq<BitBoard>, i: int) -> bool {
    !line[i].ended() && line[i].turn(line[i + 1])
}

/// A position: the squares of each colour and the side to move, 0 for black
/// and 1 for white.
#[derive(Clone, Copy, Debug)]
pub struct BitBoard {
    pub black: u64,
    pub white: u64,
    pub player: i32,
}

impl BitBoard {
    /// Whether the side to move is one of the two colours.
    pub open spec fn has_side(&self) -> bool {
        self.player == 0 || self.player == 1
    }

    /// Whether no square holds a disk of both colours.
    pub open spec fn disjoint(&self) -> bool {
        self.black & self.white == 0
    }

    /// Whether this is a position of the game: one of the two colours is to
    /// move, and no square holds two disks.
    pub open spec fn wf(&self) -> bool {
        self.has_side() && self.disjoint()
    }

    /// The squares of the side to move.
    pub open spec fn mover(&self) -> u64 {
        if self.player == 0 {
            self.black
        } else {
            self.white
        }
    }

    /// The squares of the side that waits.
    pub open spec fn waiting(&self) -> u64 {
        if self.player == 0 {
            self.white
        } else {
            self.black
        }
    }

    /// Whether neither side has a legal square.
    pub open spec fn ended(&self) -> bool {
        legal_mask(self.white, self.black) == 0 && legal_mask(self.black, self.white) == 0
    }

    /// Whether the side to move has a legal square.
    pub open spec fn can_move(&self) -> bool {
        legal_mask(self.mover(), self.waiting()) != 0
    }

    /// Whether `next` is the position after one turn: the side to move has
    /// placed a disk on a legal square, or, having none, has passed with the
    /// board unchanged. Either way the other side is then to move.
    pub open spec fn turn(&self, next: BitBoard) -> bool {
        if self.can_move() {
            exists|position: u64|
                is_legal_move(self.mover(), self.waiting(), position) && #[trigger] self.after(
                    position,
                    next,
                )
        } else {
            self.passed(next)
        }
    }

    /// Whether `next` is the position after the side to move has placed a
    /// disk on the square `position`.
    pub open spec fn after(&self, position: u64, next: BitBoard) -> bool {
        &&& next.player == 1 - self.player
        &&& forall|r: int, c: int|
            on_board(r, c) && position == square(r, c) ==> follows(
                self.mover(),
                self.waiting(),
                r,
                c,
                next.waiting(),
                next.mover(),
            )
    }

    /// Whether `next` is this position with the move passed on: the same
    /// board, the other side to move.
    pub open spec fn passed(&self, next: BitBoard) -> bool {
        next.black == self.black && next.white == self.white && next.player == 1 - self.player
    }

    /// The result of the position for `side`, by the number of disks: 1 if
    /// `side` has more, -1 if it has fewer, 0 if both have the same number.
    pub open spec fn score_for(&self, side: int) -> int {
        let mine = if side == 0 {
            disk_count(self.black)
        } else {
            disk_count(self.white)
        };
        let theirs = if side == 0 {
            disk_count(self.white)
        } else {
            disk_count(self.black)
        };
        if mine > theirs {
            1
        } else if mine < theirs {
            -1
        } else {
            0
        }
    }

    /// The empty board with `player` to move.
    pub fn new(player: i32) -> (board: Self)
        ensures
            board.black == 0,
            board.white == 0,
            board.player == player,
            board.disjoint(),
    {
        assert(0u64 & 0u64 == 0) by (bit_vector);
        Self { black: 0, white: 0, player }
    }

    /// The position that a snapshot shows, with `player` to move: `'0'` is a
    /// black disk, `'1'` a white one, and every other character, like every
    /// square that the snapshot leaves out, is empty.
    pub fn from_strings(board: Vec<String>, player: i32) -> (position: Self)
        requires
            fits_board(board@),
        ensures
            position.player == player,
            position.disjoint(),
            forall|r: int, c: int|
                on_board(r, c) ==> occupied(position.black, r, c) == (colour_of(
                    snapshot_char(board@, r, c),
                ) == 0),
            forall|r: int, c: int|
                on_board(r, c) ==> occupied(position.white, r, c) == (colour_of(
                    snapshot_char(board@, r, c),
                ) == 1),
    {
        let mut black: u64 = 0;
        let mut white: u64 = 0;
        let mut y: usize = 0;
        proof {
            lemma_occupied_algebra(0, 0);
        }
        while y < board.len()
            invariant
                y <= board.len(),
                fits_board(board@),
                forall|r: int, c: int|
                    on_board(r, c) ==> occupied(black, r, c) == (r < y && colour_of(
                        snapshot_char(board@, r, c),
                    ) == 0),
                forall|r: int, c: int|
                    on_board(r, c) ==> occupied(white, r, c) == (r < y && colour_of(
                        snapshot_char(board@, r, c),
                    ) == 1),
            decreases board.len() - y,
        {
            let column = board[y].as_str();
            let width = column.unicode_len();
            let mut x: usize = 0;
            while x < width
                invariant
                    y < board.len() <= 8,
                    x <= width <= 8,
                    width == column@.len(),
                    column@ == board@[y as int]@,
                    forall|r: int, c: int|
                        on_board(r, c) ==> occupied(black, r, c) == ((r < y || (r == y && c < x))
                            && colour_of(snapshot_char(board@, r, c)) == 0),
                    forall|r: int, c: int|
                        on_board(r, c) ==> occupied(white, r, c) == ((r < y || (r == y && c < x))
                            && colour_of(snapshot_char(board@, r, c)) == 1),
                decreases width - x,
            {
                let ch = column.get_char(x);
                proof {
                    lemma_square(y as int, x as int);
                    lemma_occupied_algebra(black, square(y as int, x as int));
                    lemma_occupied_algebra(white, square(y as int, x as int));
                }
                if ch == '0' {
                    black |= TOP_LEFT >> (y * 8 + x);
                } else if ch == '1' {
                    white |= TOP_LEFT >> (y * 8 + x);
                }
                x += 1;
            }
            y += 1;
        }
        proof {
            lemma_disjoint(black, white);
        }
        Self { black, white, player }
    }

    /// The character that shows the square `(r, c)`: `'0'` for a black disk,
    /// `'1'` for a white one, `'.'` for none.
    pub open spec fn shown(&self, r: int, c: int) -> char {
        if occupied(self.white, r, c) {
            '1'
        } else if occupied(self.black, r, c) {
            '0'
        } else {
            '.'
        }
    }

    /// The snapshot of the position: eight rows of eight characters, from the
    /// top row down and in each row from the left.
    pub fn to_strings(&self) -> (rows: Vec<String>)
        requires
            self.disjoint(),
        ensures
            rows.len() == 8,
            forall|r: int| 0 <= r < 8 ==> (#[trigger] rows[r])@.len() == 8,
            forall|r: int, c: int| on_board(r, c) ==> rows[r]@[c] == self.shown(r, c),
    {
        let mut rows: Vec<String> = Vec::new();
        let mut y: usize = 0;
        while y < 8
            invariant
                y <= 8,
                rows.len() == y,
                forall|r: int| 0 <= r < y ==> (#[trigger] rows[r])@.len() == 8,
                forall|r: int, c: int| 0 <= r < y && 0 <= c < 8 ==> rows[r]@[c] == self.shown(r, c),
            decreases 8 - y,
        {
            let mut line = String::new();
            let mut x: usize = 0;
            while x < 8
                invariant
                    y < 8,
                    x <= 8,
                    line@.len() == x,
                    forall|c: int| 0 <= c < x ==> line@[c] == self.shown(y as int, c),
                decreases 8 - x,
            {
                let bit: u64 = TOP_LEFT >> (y * 8 + x);
                proof {
                    reveal_strlit("1");
                    reveal_strlit("0");
                    reveal_strlit(".");
                }
                if self.white & bit != 0 {
                    line.append("1");
                } else if self.black & bit != 0 {
                    line.append("0");
                } else {
                    line.append(".");
                }
                x += 1;
            }
            rows.push(line);
            y += 1;
        }
        rows
    }

    /// The squares on which the side with the disks `p` may move against the
    /// disks `o`.
    pub fn legal_move_bits(&self, p: u64, o: u64) -> (moves: u64)
        ensures
            moves == legal_mask(p, o),
            marks_legal_squares(moves, p, o),
    {
        let mut moves: u64;
        let m_o: u64 = o & INNER_COLUMNS;
        let mut flip1: u64 = m_o & (p << 1);
        let mut flip7: u64 = m_o & (p << 7);
        let mut flip9: u64 = m_o & (p << 9);
        let mut flip8: u64 = o & (p << 8);
        flip1 |= m_o & (flip1 << 1);
        flip7 |= m_o & (flip7 << 7);
        flip9 |= m_o & (flip9 << 9);
        flip8 |= o & (flip8 << 8);
        let mut pre1: u64 = m_o & (m_o << 1);
        let mut pre7: u64 = m_o & (m_o << 7);
        let mut pre9: u64 = m_o & (m_o << 9);
        let mut pre8: u64 = o & (o << 8);
        flip1 |= pre1 & (flip1 << 2);
        flip7 |= pre7 & (flip7 << 14);
        flip9 |= pre9 & (flip9 << 18);
        flip8 |= pre8 & (flip8 << 16);
        flip1 |= pre1 & (flip1 << 2);
        flip7 |= pre7 & (flip7 << 14);
        flip9 |= pre9 & (flip9 << 18);
        flip8 |= pre8 & (flip8 << 16);
        moves = flip1 << 1;
        moves |= flip7 << 7;
        moves |= flip9 << 9;
        moves |= flip8 << 8;
        flip1 = m_o & (p >> 1);
        flip7 = m_o & (p >> 7);
        flip9 = m_o & (p >> 9);
        flip8 = o & (p >> 8);
        flip1 |= m_o & (flip1 >> 1);
        flip7 |= m_o & (flip7 >> 7);
        flip9 |= m_o & (flip9 >> 9);
        flip8 |= o & (flip8 >> 8);
        pre1 >>= 1;
        pre7 >>= 7;
        pre9 >>= 9;
        pre8 >>= 8;
        flip1 |= pre1 & (flip1 >> 2);
        flip7 |= pre7 & (flip7 >> 14);
        flip9 |= pre9 & (flip9 >> 18);
        flip8 |= pre8 & (flip8 >> 16);
        flip1 |= pre1 & (flip1 >> 2);
        flip7 |= pre7 & (flip7 >> 14);
        flip9 |= pre9 & (flip9 >> 18);
        flip8 |= pre8 & (flip8 >> 16);
        moves |= flip1 >> 1;
        moves |= flip7 >> 7;
        moves |= flip9 >> 9;
        moves |= flip8 >> 8;
        let found = moves & !(p | o);
        proof {
            assert(found == parallel_moves(p, o));
            lemma_parallel_moves(p, o);
            lemma_legal_mask(p, o);
        }
        found
    }

    /// The masks of the side to move and of the side that waits.
    pub fn curr_board(&self) -> (pair: (u64, u64))
        requires
            self.has_side(),
        ensures
            pair.0 == self.mover(),
            pair.1 == self.waiting(),
    {
        if self.player == 0 {
            (self.black, self.white)
        } else {
            (self.white, self.black)
        }
    }

    /// `position` with every square moved one step in direction `k`; squares
    /// that would leave the board are dropped. The directions are numbered
    /// clockwise from 0, which is "up"; any other `k` gives the empty mask.
    pub fn transfer(&self, position: u64, k: i32) -> (moved: u64)
        ensures
            moved == shifted(position, k as int),
            !is_direction(k as int) ==> moved == 0,
            is_direction(k as int) ==> forall|r: int, c: int| #[trigger]
                occupied(moved, r, c) == (on_board(r, c) && occupied(
                    position,
                    ahead_row(k as int, r, -1),
                    ahead_col(k as int, c, -1),
                )),
    {
        proof {
            if is_direction(k as int) {
                lemma_shifted(position, k as int);
            }
        }
        match k {
            0 => (position << 8) & 0xffff_ffff_ffff_ff00,
            1 => (position << 7) & 0x7f7f_7f7f_7f7f_7f00,
            2 => (position >> 1) & 0x7f7f_7f7f_7f7f_7f7f,
            3 => (position >> 9) & 0x007f_7f7f_7f7f_7f7f,
            4 => (position >> 8) & 0x00ff_ffff_ffff_ffff,
            5 => (position >> 7) & 0x00fe_fefe_fefe_fefe,
            6 => (position << 1) & 0xfefe_fefe_fefe_fefe,
            7 => (position << 9) & 0xfefe_fefe_fefe_fe00,
            _ => 0,
        }
    }

    /// The position after the side with the disks `player` has placed a disk
    /// on the square `position` against the disks `opponent`: its own mask
    /// first, then the other. In each direction the unbroken line of
    /// `opponent`'s disks next to the square changes colour if a disk of
    /// `player` closes it.
    pub fn update(&self, player: u64, opponent: u64, position: u64) -> (next: (u64, u64))
        ensures
            forall|r: int, c: int|
                on_board(r, c) && position == square(r, c) ==> follows(
                    player,
                    opponent,
                    r,
                    c,
                    next.0,
                    next.1,
                ),
            player & opponent == 0 && is_square(position) && opponent & position == 0 ==> next.0
                & next.1 == 0,
            player & opponent == 0 && is_square(position) && (player | opponent) & position == 0
                ==> next.0 | next.1 == (player | opponent) | position && disk_count(
                next.0 | next.1,
            ) == disk_count(player | opponent) + 1,
    {
        let ghost single = is_square(position);
        let ghost (r, c) = choose|r: int, c: int| on_board(r, c) && position == square(r, c);
        let mut rev: u64 = 0;
        let mut k: i32 = 0;
        proof {
            lemma_occupied_algebra(0, 0);
        }
        while k < 8
            invariant
                0 <= k <= 8,
                single ==> on_board(r, c) && position == square(r, c),
                single ==> forall|sr: int, sc: int|
                    on_board(sr, sc) ==> occupied(rev, sr, sc) == flipped_below(
                        player,
                        opponent,
                        r,
                        c,
                        k as int,
                        sr,
                        sc,
                    ),
            decreases 8 - k,
        {
            let mut rev_: u64 = 0;
            let mut mask: u64 = self.transfer(position, k);
            let ghost mut j: int = 1;
            proof {
                lemma_occupied_algebra(0, 0);
                assert(shifted_by(position, k as int, 1) == shifted(
                    shifted_by(position, k as int, 0),
                    k as int,
                ));
                if single {
                    lemma_shifted_one(r, c, k as int);
                }
            }
            while mask != 0 && mask & opponent != 0
                invariant
                    is_direction(k as int),
                    1 <= j <= 8,
                    mask == shifted_by(position, k as int, j as nat),
                    single ==> on_board(r, c) && position == square(r, c),
                    single ==> on_board(ahead_row(k as int, r, j - 1), ahead_col(k as int, c, j - 1)),
                    single ==> mask == next_square(r, c, k as int, j),
                    single ==> forall|i: int|
                        1 <= i < j ==> #[trigger] occupied(
                            opponent,
                            ahead_row(k as int, r, i),
                            ahead_col(k as int, c, i),
                        ),
                    single ==> forall|sr: int, sc: int|
                        on_board(sr, sc) ==> occupied(rev_, sr, sc) == within(
                            r,
                            c,
                            k as int,
                            j - 1,
                            sr,
                            sc,
                        ),
                decreases 8 - j,
            {
                proof {
                    lemma_shifted_by(position, k as int, 8);
                    lemma_occupied_algebra(rev_, mask);
                    lemma_and_commutes(mask, opponent);
                    if single {
                        let nr = ahead_row(k as int, r, j);
                        let nc = ahead_col(k as int, c, j);
                        lemma_square(nr, nc);
                        lemma_shifted_one(nr, nc, k as int);
                    }
                }
                rev_ |= mask;
                mask = self.transfer(mask, k);
                proof {
                    j = j + 1;
                }
            }
            proof {
                lemma_and_commutes(mask, opponent);
                lemma_and_commutes(mask, player);
                lemma_and_commutes(opponent, mask);
                lemma_and_commutes(player, mask);
                lemma_occupied_algebra(rev, rev_);
                if single {
                    let nr = ahead_row(k as int, r, j);
                    let nc = ahead_col(k as int, c, j);
                    if on_board(nr, nc) {
                        lemma_square(nr, nc);
                    }
                    lemma_run_length(opponent, r, c, k as int, 1, j);
                    assert(run_length(opponent, r, c, k as int, 1) == j - 1);
                    assert((mask & player != 0) == occupied(player, nr, nc));
                    assert forall|sr: int, sc: int| on_board(sr, sc) implies (mask & player != 0
                        && occupied(rev_, sr, sc)) == flipped_towards(
                        player,
                        opponent,
                        r,
                        c,
                        k as int,
                        sr,
                        sc,
                    ) by {}
                }
            }
            if mask & player != 0 {
                rev |= rev_;
            }
            k += 1;
        }
        let next_player = player ^ (position | rev);
        let next_opponent = opponent ^ rev;
        proof {
            lemma_occupied_algebra(player, position | rev);
            lemma_occupied_algebra(position, rev);
            lemma_occupied_algebra(opponent, rev);
            assert forall|qr: int, qc: int|
                on_board(qr, qc) && position == square(qr, qc) implies follows(
                player,
                opponent,
                qr,
                qc,
                next_player,
                next_opponent,
            ) by {
                assert(single);
                lemma_square(r, c);
                lemma_square(qr, qc);
                assert(occupied(square(r, c), qr, qc));
                assert forall|sr: int, sc: int| on_board(sr, sc) implies flipped(
                    player,
                    opponent,
                    r,
                    c,
                    sr,
                    sc,
                ) == flipped_below(player, opponent, r, c, 8, sr, sc) by {}
            }
            if single && player & opponent == 0 {
                lemma_and_commutes(opponent, position);
                lemma_occupied_algebra(player, opponent);
                if (player | opponent) & position == 0 {
                    assert(!occupied(player | opponent, r, c));
                    assert(!occupied(opponent, r, c));
                }
                if opponent & position == 0 {
                    assert(!occupied(opponent, r, c));
                    lemma_follows_keeps_disks(player, opponent, r, c, next_player, next_opponent);
                    if (player | opponent) & position == 0 {
                        assert(!occupied(player | opponent, r, c));
                        lemma_count_with_square(player | opponent, r, c);
                    }
                }
            }
        }
        (next_player, next_opponent)
    }

    /// The squares on which the side with the disks `p` may move against the
    /// disks `o`, one mask for each, by rising value: from the bottom-right
    /// corner leftwards, row by row upwards.
    pub fn legal_moves(&self, p: u64, o: u64) -> (legals: Vec<u64>)
        ensures
            legals@ == set_bits(legal_mask(p, o), 64),
            forall|i: int| 0 <= i < legals.len() ==> is_legal_move(p, o, #[trigger] legals[i]),
            forall|r: int, c: int|
                legal_square(p, o, r, c) ==> legals@.contains(#[trigger] square(r, c)),
            forall|i: int, j: int| 0 <= i < j < legals.len() ==> legals[i] < legals[j],
            legals.len() <= 64,
            (legals.len() == 0) == (legal_mask(p, o) == 0),
    {
        let legal_move_bits = self.legal_move_bits(p, o);
        let mut legals: Vec<u64> = Vec::new();
        let mut i: u32 = 0;
        while i < 64
            invariant
                i <= 64,
                legals@ == set_bits(legal_move_bits, i as nat),
            decreases 64 - i,
        {
            if legal_move_bits & (1u64 << i) != 0 {
                proof {
                    lemma_bit(legal_move_bits, i as u64);
                }
                legals.push(legal_move_bits & (1u64 << i));
            }
            i += 1;
        }
        proof {
            lemma_set_bits(legal_move_bits, 64);
            lemma_occupied_algebra(0, 0);
            assert forall|j: int| 0 <= j < legals.len() implies is_legal_move(
                p,
                o,
                #[trigger] legals[j],
            ) by {
                let (r, c) = choose|r: int, c: int|
                    on_board(r, c) && 63 - (8 * r + c) < 64 && occupied(legal_move_bits, r, c)
                        && #[trigger] set_bits(legal_move_bits, 64)[j] == #[trigger] square(r, c);
                assert(legal_square(p, o, r, c));
            }
            assert forall|r: int, c: int| legal_square(p, o, r, c) implies legals@.contains(
                #[trigger] square(r, c),
            ) by {
                assert(occupied(legal_move_bits, r, c));
            }
            lemma_no_bits(legal_move_bits);
        }
        legals
    }

    /// The side that moves after the side to move: 1 after 0, and 0 after 1.
    pub fn next_player(&self) -> (next: i32)
        requires
            self.player >= -0x7fff_fffe,
        ensures
            next == 1 - self.player,
    {
        1 - self.player
    }

    /// The same board with the other side to move: what a side does that has
    /// no legal square.
    pub fn pass(&self) -> (next: Self)
        requires
            self.has_side(),
        ensures
            self.passed(next),
            next.has_side(),
            next.mover() == self.waiting(),
            next.waiting() == self.mover(),
    {
        Self { black: self.black, white: self.white, player: self.next_player() }
    }

    /// The position after the side to move has placed a disk on the square
    /// `position`; the other side is then to move.
    pub fn play(&self, position: u64) -> (next: Self)
        requires
            self.has_side(),
        ensures
            self.after(position, next),
            next.has_side(),
            self.disjoint() && is_square(position) && self.waiting() & position == 0
                ==> next.disjoint(),
            self.disjoint() && is_square(position) && (self.black | self.white) & position == 0
                ==> next.black | next.white == (self.black | self.white) | position && disk_count(
                next.black | next.white,
            ) == disk_count(self.black | self.white) + 1,
    {
        let mut board = *self;
        let (player, opponent) = if self.player == 0 {
            (board.black, board.white)
        } else {
            (board.white, board.black)
        };
        let (player, opponent) = board.update(player, opponent, position);
        proof {
            lemma_and_commutes(self.black, self.white);
            lemma_and_commutes(player, opponent);
            lemma_or_commutes(self.black, self.white);
            lemma_or_commutes(player, opponent);
        }
        if board.player == 0 {
            board.black = player;
            board.white = opponent;
        } else {
            board.white = player;
            board.black = opponent;
        }
        board.player = board.next_player();
        board
    }

    /// The side with more disks: 0 for black, 1 for white, 2 if they have the
    /// same number.
    pub fn winner(&self) -> (side: i32)
        ensures
            side == if disk_count(self.black) > disk_count(self.white) {
                0int
            } else if disk_count(self.white) > disk_count(self.black) {
                1int
            } else {
                2int
            },
    {
        let white_cnt = self.white.count_ones();
        let black_cnt = self.black.count_ones();
        if black_cnt > white_cnt {
            0
        } else if white_cnt > black_cnt {
            1
        } else {
            2
        }
    }

    /// One random game from this position to its end, with the choices drawn
    /// from `source`: in each turn the side to move places a disk on one of
    /// its legal squares, or passes if it has none. The result is 1 if the
    /// side that is to move now ends with more disks, -1 if with fewer, 0 if
    /// with the same number.
    pub fn playout_with(&self, source: &mut RandomSource) -> (reward: i32)
        requires
            self.wf(),
        ensures
            -1 <= reward <= 1,
            exists|line: Seq<BitBoard>|
                is_game(line) && line[0] == *self && #[trigger] line.last().ended() && reward
                    == line.last().score_for(self.player as int),
    {
        let mut board = *self;
        let ghost mut line: Seq<BitBoard> = seq![*self];
        while !board.is_game_ended()
            invariant
                board.wf(),
                is_game(line),
                line[0] == *self,
                line.last() == board,
            decreases
                    !(board.black | board.white),
                    if board.can_move() {
                        0int
                    } else {
                        1int
                    },
        {
            let ghost before = board;
            let (player, opponent) = board.curr_board();
            let legal_moves = board.legal_moves(player, opponent);
            match source.below(legal_moves.len()) {
                None => {
                    board = board.pass();
                },
                Some(index) => {
                    let legal = legal_moves[index];
                    proof {
                        let (r, c) = choose|r: int, c: int|
                            on_board(r, c) && legal == #[trigger] square(r, c) && legal_square(
                                player,
                                opponent,
                                r,
                                c,
                            );
                        lemma_occupied_algebra(board.black, board.white);
                        lemma_square(r, c);
                        assert(!occupied(board.black | board.white, r, c));
                        assert(is_square(legal));
                        lemma_fewer_free(board.black | board.white, legal);
                    }
                    board = board.play(legal);
                },
            }
            proof {
                assert(before.turn(board));
                let longer = line.push(board);
                assert forall|i: int| 0 <= i < longer.len() - 1 implies #[trigger] turn_at(
                    longer,
                    i,
                ) by {
                    if i < line.len() - 1 {
                        assert(turn_at(line, i));
                    }
                }
                line = longer;
            }
        }
        let winner = board.winner();
        if winner == 2 {
            0
        } else if winner == self.player {
            1
        } else {
            -1
        }
    }

    /// One random game from this position to its end, with the choices drawn
    /// from the generator of the running thread. The result is 1 if the side
    /// that is to move now ends with more disks, -1 if with fewer, 0 if with
    /// the same number.
    pub fn playout(&self) -> (reward: i32)
        requires
            self.wf(),
        ensures
            -1 <= reward <= 1,
            exists|line: Seq<BitBoard>|
                is_game(line) && line[0] == *self && #[trigger] line.last().ended() && reward
                    == line.last().score_for(self.player as int),
    {
        let mut source = RandomSource::thread();
        self.playout_with(&mut source)
    }

    /// Whether the game is over: neither side has a legal square. Empty
    /// squares may remain.
    pub fn is_game_ended(&self) -> (over: bool)
        ensures
            over == self.ended(),
    {
        let white = self.legal_move_bits(self.white, self.black);
        let black = self.legal_move_bits(self.black, self.white);
        white == 0 && black == 0
    }
}

/// A legal move leads from a position of the game to a position of the game,
/// and adds exactly the placed disk to the disks on the board: flipped disks
/// change colour, not place.
pub proof fn lemma_after_legal(state: BitBoard, position: u64, next: BitBoard)
    requires
        state.wf(),
        is_legal_move(state.mover(), state.waiting(), position),
        state.after(position, next),
    ensures
        next.wf(),
        (state.black | state.white) & position == 0,
        next.black | next.white == (state.black | state.white) | position,
        disk_count(next.black | next.white) == disk_count(state.black | state.white) + 1,
{
    let p = state.mover();
    let o = state.waiting();
    let (r, c) = choose|r: int, c: int|
        on_board(r, c) && position == #[trigger] square(r, c) && legal_square(p, o, r, c);
    lemma_and_commutes(state.black, state.white);
    lemma_or_commutes(state.black, state.white);
    lemma_and_commutes(next.black, next.white);
    lemma_or_commutes(next.black, next.white);
    lemma_occupied_algebra(p, o);
    lemma_follows_keeps_disks(p, o, r, c, next.waiting(), next.mover());
    lemma_count_with_square(p | o, r, c);
}

/// Every position of a game that starts from a position of the game is one:
/// no square ever holds two disks.
pub proof fn lemma_game_keeps_wf(line: Seq<BitBoard>, i: int)
    requires
        is_game(line),
        line[0].wf(),
        0 <= i < line.len(),
    ensures
        line[i].wf(),
    decreases i,
{
    if i > 0 {
        lemma_game_keeps_wf(line, i - 1);
        let before = line[i - 1];
        assert(turn_at(line, i - 1));
        if before.can_move() {
            let position = choose|position: u64|
                is_legal_move(before.mover(), before.waiting(), position) && #[trigger] before.after(
                    position,
                    line[i],
                );
            lemma_after_legal(before, position, line[i]);
        } else {
            lemma_and_commutes(before.black, before.white);
        }
    }
}

/// A side that has no legal square while the game goes on passes: its turn
/// leaves the board as it is and gives the move to the other side, which can
/// move.
pub proof fn lemma_pass(state: BitBoard, next: BitBoard)
    requires
        state.has_side(),
        !state.ended(),
        !state.can_move(),
        state.turn(next),
    ensures
        next.black == state.black,
        next.white == state.white,
        next.player == 1 - state.player,
        next.can_move(),
{
}

/// The game is over exactly if neither side has a legal square, whether or
/// not empty squares remain.
pub proof fn lemma_ended(state: BitBoard)
    ensures
        state.ended() <==> forall|r: int, c: int|
            !legal_square(state.black, state.white, r, c) && !legal_square(
                state.white,
                state.black,
                r,
                c,
            ),
{
    lemma_legal_mask(state.black, state.white);
    lemma_legal_mask(state.white, state.black);
    lemma_occupied_algebra(0, 0);
    let b = legal_mask(state.black, state.white);
    let w = legal_mask(state.white, state.black);
    if forall|r: int, c: int|
        !legal_square(state.black, state.white, r, c) && !legal_square(
            state.white,
            state.black,
            r,
            c,
        ) {
        assert forall|r: int, c: int| on_board(r, c) implies occupied(b, r, c) == occupied(
            0,
            r,
            c,
        ) by {
            assert(!legal_square(state.black, state.white, r, c));
        }
        assert forall|r: int, c: int| on_board(r, c) implies occupied(w, r, c) == occupied(
            0,
            r,
            c,
        ) by {
            assert(!legal_square(state.white, state.black, r, c));
        }
        lemma_masks_equal(b, 0);
        lemma_masks_equal(w, 0);
    }
}

} // verus!
