//! A game of a person against the search: the board that is shown, the
//! moves of the person, and the turns of the search, which plays white.
use crate::bitboard::{colour_of, fits_board, snapshot_char, BitBoard};
use crate::board::{char_of, is_step, lines, Board, Disk};
use crate::grid::{
    ahead_col, ahead_row, is_direction, lemma_and_commutes, lemma_bit, lemma_index, lemma_no_bits,
    lemma_occupied_algebra, lemma_set_bits, lemma_square, occupied, on_board, set_bits, square,
};
use crate::rules::{
    flipped, flipped_towards, flips, follows, is_legal_move, legal_square, lemma_disjoint,
    lemma_flipped_was_other, lemma_run_length, lemma_run_length_meaning, outflanks, run_length,
};
use crate::search::{Selector, MCTS};
use vstd::prelude::*;

verus! {

/// The milliseconds that the search takes for a move.
pub const THINKING_TIME: u128 = 1000;

/// The state of the game: the board and, in it, the side to move.
pub struct OthelloApp {
    pub board: Board,
}

/// Whether the masks hold the disks of the board, square by square, with the
/// same side to move.
pub open spec fn shows(position: BitBoard, board: Board) -> bool {
    &&& board.wf()
    &&& board.width == 8
    &&& board.height == 8
    &&& position.player == board.player
    &&& forall|r: int, c: int|
        on_board(r, c) ==> occupied(position.black, r, c) == (#[trigger] board.at(c, r)
            == Disk::Black)
    &&& forall|r: int, c: int|
        on_board(r, c) ==> occupied(position.white, r, c) == (#[trigger] board.at(c, r)
            == Disk::White)
}

/// The number of the direction of a step.
pub open spec fn direction_of(dx: int, dy: int) -> int {
    if dy < 0 {
        if dx < 0 {
            7
        } else if dx == 0 {
            0
        } else {
            1
        }
    } else if dy == 0 {
        if dx < 0 {
            6
        } else {
            2
        }
    } else {
        if dx < 0 {
            5
        } else if dx == 0 {
            4
        } else {
            3
        }
    }
}

/// On a board that the masks show, the line from the square `j` steps away
/// is closed after `k` disks exactly if those `k` squares hold disks of the
/// other side and the square behind them holds a disk of the side to move.
proof fn lemma_closed_line(
    position: BitBoard,
    board: Board,
    x: int,
    y: int,
    dx: int,
    dy: int,
    j: int,
    k: int,
)
    requires
        shows(position, board),
        position.has_side(),
        is_step(dx, dy),
        j >= 1,
    ensures
        board.closed_line(board.mover_disk(), x + j * dx, y + j * dy, dx, dy) == Some(k) <==> (k
            >= 0 && (forall|i: int|
            j <= i < j + k ==> #[trigger] occupied(
                position.waiting(),
                ahead_row(direction_of(dx, dy), y, i),
                ahead_col(direction_of(dx, dy), x, i),
            )) && occupied(
            position.mover(),
            ahead_row(direction_of(dx, dy), y, j + k),
            ahead_col(direction_of(dx, dy), x, j + k),
        )),
    decreases board.room(x + j * dx, y + j * dy, dx, dy),
{
    let dir = direction_of(dx, dy);
    let disk = board.mover_disk();
    let cx = x + j * dx;
    let cy = y + j * dy;
    assert(cx == ahead_col(dir, x, j) && cy == ahead_row(dir, y, j)) by {
        assert(j * dx == if dx > 0 {
            j
        } else if dx < 0 {
            -j
        } else {
            0
        }) by (nonlinear_arith)
            requires
                -1 <= dx <= 1,
        ;
        assert(j * dy == if dy > 0 {
            j
        } else if dy < 0 {
            -j
        } else {
            0
        }) by (nonlinear_arith)
            requires
                -1 <= dy <= 1,
        ;
    }
    assert(x + (j + 1) * dx == cx + dx && y + (j + 1) * dy == cy + dy) by (nonlinear_arith)
        requires
            cx == x + j * dx,
            cy == y + j * dy,
    ;
    if board.inside(cx, cy) {
        assert(on_board(cy, cx));
        assert(occupied(position.black, cy, cx) == (board.at(cx, cy) == Disk::Black));
        assert(occupied(position.white, cy, cx) == (board.at(cx, cy) == Disk::White));
        if board.at(cx, cy) != disk && board.at(cx, cy) == disk.other() {
            lemma_closed_line(position, board, x, y, dx, dy, j + 1, k - 1);
            if k >= 1 && (forall|i: int|
                j <= i < j + k ==> #[trigger] occupied(
                    position.waiting(),
                    ahead_row(dir, y, i),
                    ahead_col(dir, x, i),
                )) {
                assert forall|i: int| j + 1 <= i < j + 1 + (k - 1) implies #[trigger] occupied(
                    position.waiting(),
                    ahead_row(dir, y, i),
                    ahead_col(dir, x, i),
                ) by {}
            }
            if board.closed_line(disk, cx, cy, dx, dy) == Some(k) {
                assert(board.closed_line(disk, cx + dx, cy + dy, dx, dy) == Some(k - 1));
                assert forall|i: int| j <= i < j + k implies #[trigger] occupied(
                    position.waiting(),
                    ahead_row(dir, y, i),
                    ahead_col(dir, x, i),
                ) by {
                    if i > j {
                        assert(j + 1 <= i < j + 1 + (k - 1));
                    }
                }
            }
        } else {
            if k >= 1 && (forall|i: int|
                j <= i < j + k ==> #[trigger] occupied(
                    position.waiting(),
                    ahead_row(dir, y, i),
                    ahead_col(dir, x, i),
                )) {
                assert(occupied(position.waiting(), ahead_row(dir, y, j), ahead_col(dir, x, j)));
            }
        }
    } else {
        if k >= 1 && (forall|i: int|
            j <= i < j + k ==> #[trigger] occupied(
                position.waiting(),
                ahead_row(dir, y, i),
                ahead_col(dir, x, i),
            )) {
            assert(occupied(position.waiting(), ahead_row(dir, y, j), ahead_col(dir, x, j)));
        }
    }
}

/// The board of squares and the masks go by the same rules: on a board that
/// the masks show, a square is legal for the side to move by the one exactly
/// if it is by the other.
pub proof fn lemma_same_rules(position: BitBoard, board: Board, x: int, y: int)
    requires
        shows(position, board),
        position.has_side(),
        board.inside(x, y),
    ensures
        board.legal(board.mover_disk(), x, y) == legal_square(
            position.mover(),
            position.waiting(),
            y,
            x,
        ),
{
    let disk = board.mover_disk();
    let p = position.mover();
    let o = position.waiting();
    assert(on_board(y, x));
    assert(occupied(position.black, y, x) == (board.at(x, y) == Disk::Black));
    assert(occupied(position.white, y, x) == (board.at(x, y) == Disk::White));
    if board.legal(disk, x, y) {
        let (dx, dy) = choose|dx: int, dy: int|
            is_step(dx, dy) && #[trigger] board.gain(disk, x, y, dx, dy) > 0;
        let k = board.closed_line(disk, x + dx, y + dy, dx, dy)->0;
        lemma_closed_line(position, board, x, y, dx, dy, 1, k);
        assert(x + 1 * dx == x + dx && y + 1 * dy == y + dy);
        assert(outflanks(p, o, y, x, direction_of(dx, dy), k));
        assert(is_direction(direction_of(dx, dy)));
    }
    if legal_square(p, o, y, x) {
        let (dir, k) = choose|dir: int, k: int|
            is_direction(dir) && #[trigger] outflanks(p, o, y, x, dir, k);
        let dx = ahead_col(dir, 0, 1);
        let dy = ahead_row(dir, 0, 1);
        assert(is_step(dx, dy) && direction_of(dx, dy) == dir);
        lemma_closed_line(position, board, x, y, dx, dy, 1, k);
        assert(x + 1 * dx == x + dx && y + 1 * dy == y + dy);
        assert forall|i: int| 1 <= i < 1 + k implies #[trigger] occupied(
            o,
            ahead_row(dir, y, i),
            ahead_col(dir, x, i),
        ) by {}
        assert(board.gain(disk, x, y, dx, dy) == k);
    }
}

/// On a board that the masks show, a disk placed on a square flips as many
/// disks in a direction by the one as by the other.
proof fn lemma_same_flips(position: BitBoard, board: Board, x: int, y: int, dx: int, dy: int)
    requires
        shows(position, board),
        position.wf(),
        is_step(dx, dy),
    ensures
        flips(position.mover(), position.waiting(), y, x, direction_of(dx, dy)) == board.gain(
            board.mover_disk(),
            x,
            y,
            dx,
            dy,
        ),
{
    let p = position.mover();
    let o = position.waiting();
    let dir = direction_of(dx, dy);
    let disk = board.mover_disk();
    let run = run_length(o, y, x, dir, 1);
    lemma_and_commutes(position.black, position.white);
    lemma_disjoint(p, o);
    lemma_run_length_meaning(o, y, x, dir, 1);
    assert(x + 1 * dx == x + dx && y + 1 * dy == y + dy);
    let line = board.closed_line(disk, x + dx, y + dy, dx, dy);
    if line is Some {
        let k = line->0;
        lemma_closed_line(position, board, x, y, dx, dy, 1, k);
        board.lemma_closed_line_fits(disk, x + dx, y + dy, dx, dy);
        assert(!(occupied(p, ahead_row(dir, y, 1 + k), ahead_col(dir, x, 1 + k)) && occupied(
            o,
            ahead_row(dir, y, 1 + k),
            ahead_col(dir, x, 1 + k),
        )));
        lemma_run_length(o, y, x, dir, 1, 1 + k);
    } else if flips(p, o, y, x, dir) != 0 {
        lemma_closed_line(position, board, x, y, dx, dy, 1, run);
        assert forall|i: int| 1 <= i < 1 + run implies #[trigger] occupied(
            o,
            ahead_row(dir, y, i),
            ahead_col(dir, x, i),
        ) by {}
    }
}

/// The board of squares and the masks make the same moves: if the masks show
/// a board, and a disk is placed on the same empty square of both, then the
/// masks show the board afterwards too.
pub proof fn lemma_same_move(
    position: BitBoard,
    board: Board,
    x: int,
    y: int,
    next_position: BitBoard,
    next_board: Board,
)
    requires
        shows(position, board),
        position.wf(),
        board.inside(x, y),
        board.at(x, y) == Disk::Empty,
        position.after(square(y, x), next_position),
        board.placed(board.mover_disk(), x, y, next_board),
        next_board.player == 1 - board.player,
    ensures
        shows(next_position, next_board),
{
    let p = position.mover();
    let o = position.waiting();
    let disk = board.mover_disk();
    assert(on_board(y, x));
    assert(follows(p, o, y, x, next_position.waiting(), next_position.mover()));
    assert forall|r: int, c: int| on_board(r, c) implies flipped(p, o, y, x, r, c) == board.turned(
        disk,
        x,
        y,
        c,
        r,
    ) by {
        if flipped(p, o, y, x, r, c) {
            let dir = choose|dir: int|
                is_direction(dir) && #[trigger] flipped_towards(p, o, y, x, dir, r, c);
            let dx = ahead_col(dir, 0, 1);
            let dy = ahead_row(dir, 0, 1);
            assert(is_step(dx, dy) && direction_of(dx, dy) == dir);
            lemma_same_flips(position, board, x, y, dx, dy);
            assert(board.turned_along(disk, x, y, dx, dy, c, r));
        }
        if board.turned(disk, x, y, c, r) {
            let (dx, dy) = choose|dx: int, dy: int|
                is_step(dx, dy) && #[trigger] board.turned_along(disk, x, y, dx, dy, c, r);
            lemma_same_flips(position, board, x, y, dx, dy);
            assert(is_direction(direction_of(dx, dy)));
            assert(flipped_towards(p, o, y, x, direction_of(dx, dy), r, c));
        }
    }
    assert forall|r: int, c: int| on_board(r, c) implies occupied(next_position.black, r, c) == (
    #[trigger] next_board.at(c, r) == Disk::Black) && occupied(next_position.white, r, c) == (
    next_board.at(c, r) == Disk::White) by {
        assert(board.inside(c, r));
        assert(occupied(position.black, r, c) == (board.at(c, r) == Disk::Black));
        assert(occupied(position.white, r, c) == (board.at(c, r) == Disk::White));
        if flipped(p, o, y, x, r, c) {
            lemma_flipped_was_other(p, o, y, x, r, c);
        }
    }
}

/// Whether the side to move has no legal square on the board.
pub open spec fn stuck(board: Board) -> bool {
    forall|x: int, y: int| board.inside(x, y) ==> !#[trigger] board.legal(board.mover_disk(), x, y)
}

/// Whether `(r, c)` is the first square of `position`, row by row from the
/// top-left corner.
pub open spec fn first_square(position: u64, r: int, c: int) -> bool {
    &&& occupied(position, r, c)
    &&& forall|sr: int, sc: int|
        on_board(sr, sc) && 8 * sr + sc < 8 * r + c ==> !occupied(position, sr, sc)
}

/// The column and the row of the first square of `position`, row by row from
/// the top-left corner; `(0, 0)` for the empty mask.
pub fn square_of(position: u64) -> (place: (usize, usize))
    ensures
        place.0 < 8,
        place.1 < 8,
        position == 0 ==> place == (0usize, 0usize),
        position != 0 ==> first_square(position, place.1 as int, place.0 as int),
        forall|r: int, c: int|
            on_board(r, c) && position == square(r, c) ==> place.0 == c && place.1 == r,
{
    let (mut x, mut y): (usize, usize) = (0, 0);
    let mut i: usize = 0;
    let ghost mut found = false;
    while i < 64
        invariant
            i <= 64,
            x < 8,
            y < 8,
            !found ==> x == 0 && y == 0,
            found ==> occupied(position, y as int, x as int) && 63 - (8 * y + x) < i,
            forall|r: int, c: int|
                on_board(r, c) && 63 - (8 * r + c) < i && occupied(position, r, c) ==> found && 8
                    * y + x <= 8 * r + c,
        decreases 64 - i,
    {
        proof {
            lemma_bit(position, i as u64);
            lemma_index(position, ((63 - i) / 8) as int, ((63 - i) % 8) as int);
        }
        if position & (1u64 << i) != 0 {
            x = (63 - i) % 8;
            y = (63 - i) / 8;
            proof {
                found = true;
            }
        }
        i += 1;
    }
    proof {
        if position != 0 {
            lemma_no_bits(position);
            lemma_set_bits(position, 64);
            let listed = set_bits(position, 64);
            let (r, c) = choose|r: int, c: int|
                on_board(r, c) && 63 - (8 * r + c) < 64 && occupied(position, r, c) && #[trigger] listed[0]
                    == #[trigger] square(r, c);
            assert(found);
        } else {
            lemma_occupied_algebra(0, 0);
        }
        assert forall|r: int, c: int| on_board(r, c) && position == square(r, c) implies x == c
            && y == r by {
            lemma_square(r, c);
            assert(occupied(position, r, c));
            assert(occupied(position, y as int, x as int));
        }
    }
    (x, y)
}

impl OthelloApp {
    /// Whether the game is one on the board of eight by eight squares, with
    /// one of the two sides to move.
    pub open spec fn wf(&self) -> bool {
        &&& self.board.wf()
        &&& self.board.width == 8
        &&& self.board.height == 8
        &&& (self.board.player == 0 || self.board.player == 1)
    }

    /// Whether the game is one on the board of eight by eight squares, with
    /// one of the two sides to move.
    pub fn is_sound(&self) -> (sound: bool)
        ensures
            sound == self.wf(),
    {
        self.board.is_sound() && self.board.width == 8 && self.board.height == 8 && (
        self.board.player == 0 || self.board.player == 1)
    }

    /// Starts the game anew.
    pub fn reset(&mut self)
        ensures
            final(self).wf(),
            final(self).board.player == 0,
    {
        self.board = Board::default();
    }

    /// The move of a person on `(x, y)`: it is played if it is legal for the
    /// side to move, and otherwise nothing happens.
    pub fn click(&mut self, x: usize, y: usize) -> (played: bool)
        requires
            old(self).wf(),
        ensures
            final(self).wf(),
            played == (old(self).board.inside(x as int, y as int) && old(self).board.legal(
                old(self).board.mover_disk(),
                x as int,
                y as int,
            )),
            played ==> old(self).board.placed(
                old(self).board.mover_disk(),
                x as int,
                y as int,
                final(self).board,
            ) && final(self).board.player == 1 - old(self).board.player,
            !played ==> final(self).board == old(self).board,
    {
        if x < self.board.width && y < self.board.height && self.board.is_legal_move(
            self.board.player_disk(),
            x,
            y,
        ) {
            self.board = self.board.play(x, y);
            true
        } else {
            false
        }
    }

    /// Passes the move on if the side to move has no legal square, and says
    /// whether it did.
    pub fn pass_if_stuck(&mut self) -> (passed: bool)
        requires
            old(self).wf(),
        ensures
            final(self).wf(),
            final(self).board.disks == old(self).board.disks,
            passed ==> final(self).board.player == 1 - old(self).board.player,
            !passed ==> final(self).board.player == old(self).board.player,
            passed == stuck(old(self).board),
    {
        let moves = self.board.legal_moves();
        if moves.len() == 0 {
            proof {
                assert forall|x: int, y: int| self.board.inside(x, y) implies !#[trigger] self.board.legal(
                    self.board.mover_disk(),
                    x,
                    y,
                ) by {
                    if self.board.legal(self.board.mover_disk(), x, y) {
                        assert(moves@.contains((x as usize, y as usize)));
                    }
                }
            }
            self.board.player = self.board.next_player();
            true
        } else {
            proof {
                let m = moves[0];
                assert(self.board.inside(m.0 as int, m.1 as int) && self.board.legal(
                    self.board.mover_disk(),
                    m.0 as int,
                    m.1 as int,
                ));
            }
            false
        }
    }

    /// The position on the board as the search reads it.
    pub fn position(&self) -> (position: BitBoard)
        requires
            self.wf(),
        ensures
            position.wf(),
            shows(position, self.board),
    {
        let rows = self.board.to_strings();
        proof {
            assert forall|r: int| 0 <= r < rows@.len() implies (#[trigger] rows@[r])@.len() <= 8 by {
                assert(lines(rows@)[r] == rows@[r]@);
            }
            assert(fits_board(rows@));
        }
        let position = BitBoard::from_strings(rows, self.board.player);
        proof {
            assert forall|r: int, c: int| on_board(r, c) implies occupied(position.black, r, c)
                == (#[trigger] self.board.at(c, r) == Disk::Black) && occupied(
                position.white,
                r,
                c,
            ) == (self.board.at(c, r) == Disk::White) by {
                assert(self.board.inside(c, r));
                assert(lines(rows@)[r] == rows@[r]@);
                assert(snapshot_char(rows@, r, c) == char_of(self.board.at(c, r)));
            }
        }
        position
    }

    /// One move of the search for the side to move, if it has a legal square:
    /// the search runs for `THINKING_TIME` with one playout for each new
    /// node, and its move is played. The result is the number of rounds that
    /// the search made; none if the side to move has no legal square.
    pub fn play_ai<S: Selector>(&mut self, selector: S) -> (rounds: Option<i32>)
        requires
            old(self).wf(),
        ensures
            final(self).wf(),
            rounds is None ==> final(self).board == old(self).board,
            rounds is None <==> stuck(old(self).board),
            rounds matches Some(count) ==> count >= 1 && final(self).board.player == 1
                - old(self).board.player && exists|x: int, y: int|
                old(self).board.inside(x, y) && old(self).board.legal(
                    old(self).board.mover_disk(),
                    x,
                    y,
                ) && #[trigger] old(self).board.placed(
                    old(self).board.mover_disk(),
                    x,
                    y,
                    final(self).board,
                ),
    {
        let board = self.position();
        let (mover, waiting) = board.curr_board();
        let legal = board.legal_move_bits(mover, waiting);
        proof {
            if legal == 0 {
                lemma_occupied_algebra(0, 0);
                assert forall|x: int, y: int| self.board.inside(x, y) implies !#[trigger] self.board.legal(
                    self.board.mover_disk(),
                    x,
                    y,
                ) by {
                    lemma_same_rules(board, self.board, x, y);
                    assert(!occupied(legal, y, x));
                }
            } else {
                lemma_no_bits(legal);
                lemma_set_bits(legal, 64);
                let (r, c) = choose|r: int, c: int|
                    on_board(r, c) && 63 - (8 * r + c) < 64 && occupied(legal, r, c)
                        && #[trigger] set_bits(legal, 64)[0] == #[trigger] square(r, c);
                lemma_same_rules(board, self.board, c, r);
                assert(self.board.inside(c, r) && self.board.legal(self.board.mover_disk(), c, r));
            }
        }
        if legal == 0 {
            return None;
        }
        let mut mcts = MCTS::new(selector, 1);
        let (position, count) = mcts.run(board, THINKING_TIME);
        let (x, y) = square_of(position);
        proof {
            let (r, c) = choose|r: int, c: int|
                on_board(r, c) && position == #[trigger] square(r, c) && legal_square(
                    mover,
                    waiting,
                    r,
                    c,
                );
            assert(x == c && y == r);
            lemma_same_rules(board, self.board, x as int, y as int);
        }
        self.board = self.board.play(x, y);
        Some(count)
    }

    /// One turn of the search, which plays white, and what follows from it.
    /// Nothing happens unless white is to move and an empty square is left.
    /// If white has no legal square, the move passes to black. Otherwise the
    /// search moves; and if black then has no legal square, the move passes
    /// back. The result says whether white is to move again, and how many
    /// rounds the search made, if it moved.
    pub fn ai_turn<S: Selector>(&mut self, selector: S) -> (outcome: (bool, Option<i32>))
        requires
            old(self).wf(),
        ensures
            final(self).wf(),
            old(self).board.player != 1 ==> outcome == (false, None::<i32>) && final(self).board
                == old(self).board,
            outcome.0 ==> final(self).board.player == 1 && outcome.1 is Some,
            outcome.1 is Some <==> old(self).board.player == 1 && !old(self).board.full()
                && !stuck(old(self).board),
            outcome.1 is None && old(self).board.player == 1 && !old(self).board.full()
                ==> final(self).board.player == 0,
            outcome.1 matches Some(count) ==> count >= 1 && exists|x: int, y: int|
                old(self).board.inside(x, y) && old(self).board.legal(Disk::White, x, y)
                    && #[trigger] old(self).board.placed(Disk::White, x, y, final(self).board),
            outcome.1 is None ==> final(self).board.disks == old(self).board.disks,
    {
        if !(self.board.player == 1 && !self.board.is_game_ended()) {
            return (false, None);
        }
        let rounds = self.play_ai(selector);
        if rounds.is_none() {
            self.board.player = self.board.next_player();
            return (false, None);
        }
        let ghost moved = self.board;
        self.pass_if_stuck();
        proof {
            let start = old(self).board;
            let (x, y) = choose|x: int, y: int|
                start.inside(x, y) && start.legal(Disk::White, x, y) && #[trigger] start.placed(
                    Disk::White,
                    x,
                    y,
                    moved,
                );
            assert forall|a: int, b: int| start.inside(a, b) implies #[trigger] self.board.at(a, b)
                == moved.at(a, b) by {}
            assert(start.placed(Disk::White, x, y, self.board));
        }
        (self.board.player == 1 && !self.board.is_game_ended(), rounds)
    }
}

impl Default for OthelloApp {
    /// The game at its start.
    fn default() -> (app: Self)
        ensures
            app.wf(),
            app.board.player == 0,
    {
        Self { board: Board::default() }
    }
}

} // verus!
