//! The board as a grid of squares, for showing a position and for checking
//! the moves of a person. Squares are named by column `x` and row `y`, both
//! counted from 0 at the top-left corner.
use vstd::prelude::*;
use vstd::string::StringExecFns;

verus! {

/// What a square holds.
#[derive(Clone, Copy, Debug, PartialEq, Eq, Structural)]
pub enum Disk {
    White,
    Black,
    Empty,
}

impl Disk {
    /// The other colour; an empty square has none.
    pub open spec fn other(self) -> Disk {
        match self {
            Disk::Black => Disk::White,
            Disk::White => Disk::Black,
            Disk::Empty => Disk::Empty,
        }
    }

    /// The other colour; an empty square has none.
    pub fn opponent(&self) -> (disk: Disk)
        ensures
            disk == self.other(),
    {
        match *self {
            Disk::Black => Disk::White,
            Disk::White => Disk::Black,
            Disk::Empty => Disk::Empty,
        }
    }
}

/// The longest side of a board: every count of squares or disks then fits a
/// 32-bit number.
pub const MAX_SIDE: usize = 0x7fff;

/// What a character of a snapshot stands for, if anything.
pub open spec fn disk_of(ch: char) -> Option<Disk> {
    if ch == '.' {
        Some(Disk::Empty)
    } else if ch == '0' {
        Some(Disk::Black)
    } else if ch == '1' {
        Some(Disk::White)
    } else {
        None
    }
}

/// The character that stands for a disk in a snapshot.
pub open spec fn char_of(disk: Disk) -> char {
    match disk {
        Disk::Black => '0',
        Disk::White => '1',
        Disk::Empty => '.',
    }
}

/// The rows of a snapshot as sequences of characters.
pub open spec fn lines(rows: Seq<String>) -> Seq<Seq<char>> {
    Seq::new(rows.len(), |y: int| rows[y]@)
}

/// Whether a board can be read from the rows: there is a first row, no row
/// is shorter than the first, and as far as the first row reaches every
/// character stands for a disk or for an empty square.
pub open spec fn readable(rows: Seq<Seq<char>>) -> bool {
    &&& rows.len() >= 1
    &&& rows.len() <= MAX_SIDE
    &&& rows[0].len() <= MAX_SIDE
    &&& forall|y: int| 0 <= y < rows.len() ==> (#[trigger] rows[y]).len() >= rows[0].len()
    &&& forall|y: int, x: int|
        0 <= y < rows.len() && 0 <= x < rows[0].len() ==> disk_of(#[trigger] rows[y][x]) is Some
}

/// Whether the rows are a snapshot of a board: readable, and all of one
/// length.
pub open spec fn well_formed(rows: Seq<Seq<char>>) -> bool {
    &&& readable(rows)
    &&& forall|y: int| 0 <= y < rows.len() ==> (#[trigger] rows[y]).len() == rows[0].len()
}

/// Whether `(dx, dy)` is one step of a king: each part is -1, 0 or 1, and
/// not both are 0.
pub open spec fn is_step(dx: int, dy: int) -> bool {
    -1 <= dx <= 1 && -1 <= dy <= 1 && !(dx == 0 && dy == 0)
}

/// Whether the step `(dx, dy)` comes before the step `(sx, sy)` where the
/// steps are taken row by row: first by `dy`, then by `dx`.
pub open spec fn step_before(dx: int, dy: int, sx: int, sy: int) -> bool {
    dy < sy || (dy == sy && dx < sx)
}

/// The number of steps of a king from `(x, y)` to `(a, b)`.
pub open spec fn steps_between(x: int, y: int, a: int, b: int) -> int {
    let across = if a >= x {
        a - x
    } else {
        x - a
    };
    let down = if b >= y {
        b - y
    } else {
        y - b
    };
    if across >= down {
        across
    } else {
        down
    }
}

/// The place reached from `x` by `j` steps of `d`, which is -1, 0 or 1.
pub open spec fn toward(x: int, d: int, j: int) -> int {
    if d > 0 {
        x + j
    } else if d < 0 {
        x - j
    } else {
        x
    }
}

/// Whether `(a, b)` is one of the `k` squares that lie from `(x, y)` on in
/// direction `(dx, dy)`, `(x, y)` being the first.
pub open spec fn on_line(x: int, y: int, dx: int, dy: int, k: int, a: int, b: int) -> bool {
    let j = steps_between(x, y, a, b);
    j < k && a == toward(x, dx, j) && b == toward(y, dy, j)
}

/// A board of `width` columns and `height` rows with the side to move, 0 for
/// black and 1 for white. `disks` holds the rows from the top down.
#[derive(Clone, Debug)]
pub struct Board {
    pub width: usize,
    pub height: usize,
    pub disks: Vec<Vec<Disk>>,
    pub player: i32,
}

/// The column of the square named by a letter from `'a'` on and the row named
/// by a digit from `'1'` on, as in `"c4"`: column 2, row 3.
pub fn coordinate(pos: &str) -> (square: (usize, usize))
    requires
        pos@.len() >= 2,
        0x61 <= pos@[0] as u32 <= 0xff,
        0x31 <= pos@[1] as u32 <= 0xff,
    ensures
        square.0 == pos@[0] as u32 - 0x61,
        square.1 == pos@[1] as u32 - 0x31,
{
    let ch = pos.get_char(0) as u8;
    let x = ch - 'a' as u8;
    let ch = pos.get_char(1) as u8;
    let y = ch - '1' as u8;
    (x as usize, y as usize)
}

impl Board {
    /// Whether the board is as large as it says: `height` rows of `width`
    /// squares, with no side beyond `MAX_SIDE`.
    pub open spec fn wf(&self) -> bool {
        &&& self.width <= MAX_SIDE
        &&& self.height <= MAX_SIDE
        &&& self.disks.len() == self.height
        &&& forall|y: int| 0 <= y < self.height ==> (#[trigger] self.disks[y]).len() == self.width
    }

    /// Whether the board has the size of `other`, and the same side to move.
    pub open spec fn same_size(&self, other: Board) -> bool {
        self.width == other.width && self.height == other.height && self.player == other.player
    }

    /// Whether `(x, y)` names a square of the board.
    pub open spec fn inside(&self, x: int, y: int) -> bool {
        0 <= x < self.width && 0 <= y < self.height
    }

    /// What the square `(x, y)` holds.
    pub open spec fn at(&self, x: int, y: int) -> Disk
        recommends
            self.inside(x, y),
    {
        self.disks[y][x]
    }

    /// Whether the board has the squares that `rows` shows, read as far as
    /// the first row reaches.
    pub open spec fn read_from(&self, rows: Seq<Seq<char>>) -> bool {
        &&& self.wf()
        &&& self.height == rows.len()
        &&& self.width == rows[0].len()
        &&& forall|x: int, y: int|
            self.inside(x, y) ==> Some(#[trigger] self.at(x, y)) == disk_of(rows[y][x])
    }

    /// Whether `rows` shows the board: one row for each row of the board,
    /// one character for each square.
    pub open spec fn shown_as(&self, rows: Seq<Seq<char>>) -> bool {
        &&& rows.len() == self.height
        &&& forall|y: int| 0 <= y < self.height ==> (#[trigger] rows[y]).len() == self.width
        &&& forall|x: int, y: int| self.inside(x, y) ==> rows[y][x] == char_of(#[trigger] self.at(x, y))
    }

    /// The number of squares of the first `y` rows, and of the first `x`
    /// squares of row `y`, that hold `disk`.
    pub open spec fn count_before(&self, disk: Disk, x: int, y: int) -> int
        decreases y, x,
    {
        if y <= 0 && x <= 0 {
            0
        } else if x <= 0 {
            self.count_before(disk, self.width as int, y - 1)
        } else {
            self.count_before(disk, x - 1, y) + if self.at(x - 1, y) == disk {
                1int
            } else {
                0int
            }
        }
    }

    /// The number of squares that hold `disk`.
    pub open spec fn count(&self, disk: Disk) -> int {
        self.count_before(disk, 0, self.height as int)
    }

    /// The empty board of the given size with `player` to move.
    pub fn new(width: usize, height: usize, player: i32) -> (board: Self)
        requires
            width <= MAX_SIDE,
            height <= MAX_SIDE,
        ensures
            board.wf(),
            board.width == width,
            board.height == height,
            board.player == player,
            forall|x: int, y: int| board.inside(x, y) ==> #[trigger] board.at(x, y) == Disk::Empty,
    {
        let mut disks: Vec<Vec<Disk>> = Vec::new();
        let mut i: usize = 0;
        while i < height
            invariant
                i <= height,
                disks.len() == i,
                forall|y: int| 0 <= y < i ==> (#[trigger] disks[y]).len() == width,
                forall|y: int, x: int| 0 <= y < i && 0 <= x < width ==> #[trigger] disks[y][x] == Disk::Empty,
            decreases height - i,
        {
            let mut column: Vec<Disk> = Vec::new();
            let mut j: usize = 0;
            while j < width
                invariant
                    j <= width,
                    column.len() == j,
                    forall|x: int| 0 <= x < j ==> column[x] == Disk::Empty,
                decreases width - j,
            {
                column.push(Disk::Empty);
                j += 1;
            }
            disks.push(column);
            i += 1;
        }
        Self { width, height, disks, player }
    }

    /// The board that a snapshot shows, with `player` to move. The first row
    /// gives the width; what a longer row holds beyond it is left out.
    pub fn from_strings(board: Vec<String>, player: i32) -> (read: Self)
        requires
            readable(lines(board@)),
        ensures
            read.read_from(lines(board@)),
            read.player == player,
    {
        let height = board.len();
        let width = board[0].as_str().unicode_len();
        let mut disks: Vec<Vec<Disk>> = Vec::new();
        let mut y: usize = 0;
        while y < height
            invariant
                y <= height,
                height == board.len(),
                width == board@[0]@.len(),
                readable(lines(board@)),
                disks.len() == y,
                forall|r: int| 0 <= r < y ==> (#[trigger] disks[r]).len() == width,
                forall|r: int, x: int|
                    0 <= r < y && 0 <= x < width ==> Some(#[trigger] disks[r][x]) == disk_of(
                        board@[r]@[x],
                    ),
            decreases height - y,
        {
            let mut column: Vec<Disk> = Vec::new();
            let row = board[y].as_str();
            let mut x: usize = 0;
            assert(lines(board@)[y as int] == row@);
            while x < width
                invariant
                    x <= width,
                    y < height,
                    height == board.len(),
                    width == board@[0]@.len(),
                    readable(lines(board@)),
                    row@ == board@[y as int]@,
                    column.len() == x,
                    forall|c: int| 0 <= c < x ==> Some(#[trigger] column[c]) == disk_of(row@[c]),
                decreases width - x,
            {
                assert(lines(board@)[y as int] == row@);
                assert(disk_of(lines(board@)[y as int][x as int]) is Some);
                let ch = row.get_char(x);
                if ch == '.' {
                    column.push(Disk::Empty);
                } else if ch == '0' {
                    column.push(Disk::Black);
                } else {
                    column.push(Disk::White);
                }
                x += 1;
            }
            disks.push(column);
            y += 1;
        }
        Self { width, height, disks, player }
    }

    /// The number of steps from `(x, y)` in direction `(dx, dy)` that stay on
    /// the board, if not more.
    pub open spec fn room(&self, x: int, y: int, dx: int, dy: int) -> int {
        (if dx > 0 {
            self.width - x
        } else if dx < 0 {
            x + 1
        } else {
            0
        }) + (if dy > 0 {
            self.height - y
        } else if dy < 0 {
            y + 1
        } else {
            0
        })
    }

    /// The number of disks of the other colour that lie from `(x, y)` on in
    /// direction `(dx, dy)`, one after the other, up to a disk `disk` that
    /// closes their line; none if the line leaves the board or meets an
    /// empty square first.
    pub open spec fn closed_line(&self, disk: Disk, x: int, y: int, dx: int, dy: int) -> Option<int>
        decreases self.room(x, y, dx, dy),
    {
        if !is_step(dx, dy) || !self.inside(x, y) {
            None
        } else if self.at(x, y) == disk {
            Some(0)
        } else if self.at(x, y) == disk.other() {
            match self.closed_line(disk, x + dx, y + dy, dx, dy) {
                Some(k) => Some(k + 1),
                None => None,
            }
        } else {
            None
        }
    }

    /// The number of disks that `disk`, placed on `(x, y)`, turns over in
    /// direction `(dx, dy)`.
    pub open spec fn gain(&self, disk: Disk, x: int, y: int, dx: int, dy: int) -> int {
        match self.closed_line(disk, x + dx, y + dy, dx, dy) {
            Some(k) => k,
            None => 0,
        }
    }

    /// Whether `disk`, placed on `(x, y)`, turns something over in a
    /// direction before `(sx, sy)`.
    pub open spec fn gain_before(&self, disk: Disk, x: int, y: int, sx: int, sy: int) -> bool {
        exists|dx: int, dy: int|
            is_step(dx, dy) && step_before(dx, dy, sx, sy) && #[trigger] self.gain(
                disk,
                x,
                y,
                dx,
                dy,
            ) > 0
    }

    /// Whether `disk` may be placed on `(x, y)`: the square is empty, and in
    /// some direction the disk turns something over.
    pub open spec fn legal(&self, disk: Disk, x: int, y: int) -> bool {
        self.at(x, y) == Disk::Empty && exists|dx: int, dy: int|
            is_step(dx, dy) && #[trigger] self.gain(disk, x, y, dx, dy) > 0
    }

    /// A closed line is no longer than the room that it has.
    pub proof fn lemma_closed_line_fits(&self, disk: Disk, x: int, y: int, dx: int, dy: int)
        requires
            self.closed_line(disk, x, y, dx, dy) is Some,
        ensures
            0 <= self.closed_line(disk, x, y, dx, dy)->0 < self.room(x, y, dx, dy),
        decreases self.room(x, y, dx, dy),
    {
        if self.at(x, y) != disk {
            self.lemma_closed_line_fits(disk, x + dx, y + dy, dx, dy);
        }
    }

    /// The number of disks of the other colour from `(x, y)` on that `disk`
    /// closes in, added to `count`; 0 if the line is not closed.
    fn can_turn_over(
        &self,
        disk: Disk,
        x: isize,
        y: isize,
        inc_x: isize,
        inc_y: isize,
        count: i32,
    ) -> (turned: i32)
        requires
            self.wf(),
            is_step(inc_x as int, inc_y as int),
            -1 <= x <= self.width,
            -1 <= y <= self.height,
            0 <= count,
            count + self.room(x as int, y as int, inc_x as int, inc_y as int) <= 0x2_0000,
        ensures
            turned == match self.closed_line(disk, x as int, y as int, inc_x as int, inc_y as int) {
                Some(k) => count + k,
                None => 0,
            },
            0 <= turned <= 0x2_0000,
        decreases self.room(x as int, y as int, inc_x as int, inc_y as int),
    {
        if x < 0 || x >= self.width as isize || y < 0 || y >= self.height as isize {
            return 0;
        }
        proof {
            if self.closed_line(disk, x as int, y as int, inc_x as int, inc_y as int) is Some {
                self.lemma_closed_line_fits(disk, x as int, y as int, inc_x as int, inc_y as int);
            }
        }
        if self.disks[y as usize][x as usize] == disk {
            count
        } else if self.disks[y as usize][x as usize] == disk.opponent() {
            self.can_turn_over(disk, x + inc_x, y + inc_y, inc_x, inc_y, count + 1)
        } else {
            0
        }
    }

    /// Whether `disk` may be placed on `(x, y)`: the square is empty, and in
    /// some direction the disk turns something over.
    pub fn is_legal_move(&self, disk: Disk, x: usize, y: usize) -> (legal: bool)
        requires
            self.wf(),
            self.inside(x as int, y as int),
        ensures
            legal == self.legal(disk, x as int, y as int),
    {
        if self.disks[y][x] != Disk::Empty {
            return false;
        }
        let mut sum: i32 = 0;
        let mut inc_y: isize = -1;
        while inc_y <= 1
            invariant
                self.wf(),
                self.inside(x as int, y as int),
                -1 <= inc_y <= 2,
                0 <= sum <= (inc_y + 1) * 3 * 0x2_0000,
                (sum > 0) == self.gain_before(disk, x as int, y as int, -1, inc_y as int),
            decreases 2 - inc_y,
        {
            let mut inc_x: isize = -1;
            while inc_x <= 1
                invariant
                    self.wf(),
                    self.inside(x as int, y as int),
                    -1 <= inc_y <= 1,
                    -1 <= inc_x <= 2,
                    0 <= sum <= ((inc_y + 1) * 3 + inc_x + 1) * 0x2_0000,
                    (sum > 0) == self.gain_before(disk, x as int, y as int, inc_x as int, inc_y as int),
                decreases 2 - inc_x,
            {
                let ghost before = sum;
                if !(inc_x == 0 && inc_y == 0) {
                    sum += self.can_turn_over(
                        disk,
                        x as isize + inc_x,
                        y as isize + inc_y,
                        inc_x,
                        inc_y,
                        0,
                    );
                    assert(sum == before + self.gain(
                        disk,
                        x as int,
                        y as int,
                        inc_x as int,
                        inc_y as int,
                    ));
                }
                proof {
                    if self.gain_before(disk, x as int, y as int, inc_x + 1, inc_y as int) {
                        let (dx, dy) = choose|dx: int, dy: int|
                            is_step(dx, dy) && step_before(dx, dy, inc_x + 1, inc_y as int)
                                && #[trigger] self.gain(disk, x as int, y as int, dx, dy) > 0;
                        if !(dx == inc_x && dy == inc_y) {
                            assert(step_before(dx, dy, inc_x as int, inc_y as int));
                        }
                    }
                }
                inc_x += 1;
            }
            proof {
                if self.gain_before(disk, x as int, y as int, -1, inc_y + 1) {
                    let (dx, dy) = choose|dx: int, dy: int|
                        is_step(dx, dy) && step_before(dx, dy, -1, inc_y + 1) && #[trigger] self.gain(
                            disk,
                            x as int,
                            y as int,
                            dx,
                            dy,
                        ) > 0;
                    assert(step_before(dx, dy, 2, inc_y as int));
                }
            }
            inc_y += 1;
        }
        proof {
            if self.legal(disk, x as int, y as int) {
                let (dx, dy) = choose|dx: int, dy: int|
                    is_step(dx, dy) && #[trigger] self.gain(disk, x as int, y as int, dx, dy) > 0;
                assert(step_before(dx, dy, -1, 2));
            }
        }
        sum > 0
    }

    /// Whether `disk`, placed on `(x, y)`, turns over the disk on `(a, b)`
    /// in direction `(dx, dy)`.
    pub open spec fn turned_along(
        &self,
        disk: Disk,
        x: int,
        y: int,
        dx: int,
        dy: int,
        a: int,
        b: int,
    ) -> bool {
        match self.closed_line(disk, x + dx, y + dy, dx, dy) {
            Some(k) => on_line(x + dx, y + dy, dx, dy, k, a, b),
            None => false,
        }
    }

    /// Whether `disk`, placed on `(x, y)`, turns over the disk on `(a, b)`
    /// in a direction before `(sx, sy)`.
    pub open spec fn turned_before(
        &self,
        disk: Disk,
        x: int,
        y: int,
        sx: int,
        sy: int,
        a: int,
        b: int,
    ) -> bool {
        exists|dx: int, dy: int|
            is_step(dx, dy) && step_before(dx, dy, sx, sy) && #[trigger] self.turned_along(
                disk,
                x,
                y,
                dx,
                dy,
                a,
                b,
            )
    }

    /// Whether `disk`, placed on `(x, y)`, turns over the disk on `(a, b)`.
    pub open spec fn turned(&self, disk: Disk, x: int, y: int, a: int, b: int) -> bool {
        exists|dx: int, dy: int|
            is_step(dx, dy) && #[trigger] self.turned_along(disk, x, y, dx, dy, a, b)
    }

    /// Whether `next` is the board after `disk` has been placed on
    /// `(x, y)`: the square holds the disk, every disk that it turns over
    /// has its colour, and the rest is as it was.
    pub open spec fn placed(&self, disk: Disk, x: int, y: int, next: Board) -> bool {
        &&& next.wf()
        &&& next.width == self.width
        &&& next.height == self.height
        &&& forall|a: int, b: int|
            self.inside(a, b) ==> #[trigger] next.at(a, b) == if (a == x && b == y) || self.turned(
                disk,
                x,
                y,
                a,
                b,
            ) {
                disk
            } else {
                self.at(a, b)
            }
    }

    /// Two boards that hold the same on the squares from `(x, y)` on in
    /// direction `(dx, dy)` have the same closed line there.
    pub proof fn lemma_same_line(&self, other: Board, disk: Disk, x: int, y: int, dx: int, dy: int)
        requires
            self.width == other.width,
            self.height == other.height,
            forall|j: int|
                0 <= j && self.inside(toward(x, dx, j), toward(y, dy, j)) ==> #[trigger] self.at(
                    toward(x, dx, j),
                    toward(y, dy, j),
                ) == other.at(toward(x, dx, j), toward(y, dy, j)),
        ensures
            self.closed_line(disk, x, y, dx, dy) == other.closed_line(disk, x, y, dx, dy),
        decreases self.room(x, y, dx, dy),
    {
        if is_step(dx, dy) && self.inside(x, y) {
            assert(self.at(toward(x, dx, 0), toward(y, dy, 0)) == other.at(
                toward(x, dx, 0),
                toward(y, dy, 0),
            ));
            if self.at(x, y) != disk && self.at(x, y) == disk.other() {
                assert forall|j: int|
                    0 <= j && self.inside(
                        toward(x + dx, dx, j),
                        toward(y + dy, dy, j),
                    ) implies #[trigger] self.at(toward(x + dx, dx, j), toward(y + dy, dy, j))
                    == other.at(toward(x + dx, dx, j), toward(y + dy, dy, j)) by {
                    assert(toward(x + dx, dx, j) == toward(x, dx, j + 1));
                    assert(toward(y + dy, dy, j) == toward(y, dy, j + 1));
                    assert(self.at(toward(x, dx, j + 1), toward(y, dy, j + 1)) == other.at(
                        toward(x, dx, j + 1),
                        toward(y, dy, j + 1),
                    ));
                }
                self.lemma_same_line(other, disk, x + dx, y + dy, dx, dy);
            }
        }
    }

    /// Turns over the disks from `(x, y)` on in direction
    /// `(inc_x, inc_y)` if a disk `disk` closes their line, and says whether
    /// one does.
    fn update_adjacent_disks(
        &mut self,
        disk: Disk,
        x: isize,
        y: isize,
        inc_x: isize,
        inc_y: isize,
    ) -> (closed: bool)
        requires
            old(self).wf(),
            disk != Disk::Empty,
            is_step(inc_x as int, inc_y as int),
            -1 <= x <= old(self).width,
            -1 <= y <= old(self).height,
        ensures
            final(self).wf(),
            final(self).same_size(*old(self)),
            closed == (old(self).closed_line(disk, x as int, y as int, inc_x as int, inc_y as int)
                is Some),
            forall|a: int, b: int|
                old(self).inside(a, b) ==> #[trigger] final(self).at(a, b) == if closed && on_line(
                    x as int,
                    y as int,
                    inc_x as int,
                    inc_y as int,
                    old(self).closed_line(disk, x as int, y as int, inc_x as int, inc_y as int)->0,
                    a,
                    b,
                ) {
                    disk
                } else {
                    old(self).at(a, b)
                },
        decreases old(self).room(x as int, y as int, inc_x as int, inc_y as int),
    {
        if x < 0 || x >= self.width as isize || y < 0 || y >= self.height as isize {
            return false;
        }
        if self.disks[y as usize][x as usize] == disk {
            return true;
        } else if self.disks[y as usize][x as usize] == Disk::Empty {
            return false;
        }
        let ghost before = *self;
        if self.update_adjacent_disks(disk, x + inc_x, y + inc_y, inc_x, inc_y) {
            self.put(disk, x as usize, y as usize);
            proof {
                let k = before.closed_line(disk, x + inc_x, y + inc_y, inc_x as int, inc_y as int)->0;
                before.lemma_closed_line_fits(disk, x + inc_x, y + inc_y, inc_x as int, inc_y as int);
                assert forall|a: int, b: int| before.inside(a, b) implies (on_line(
                    x as int,
                    y as int,
                    inc_x as int,
                    inc_y as int,
                    k + 1,
                    a,
                    b,
                ) <==> ((a == x && b == y) || on_line(
                    x + inc_x,
                    y + inc_y,
                    inc_x as int,
                    inc_y as int,
                    k,
                    a,
                    b,
                ))) by {}
            }
            true
        } else {
            false
        }
    }

    /// Places `disk` on `(x, y)` and turns over what it closes in, in every
    /// direction.
    fn update(&mut self, disk: Disk, x: usize, y: usize)
        requires
            old(self).wf(),
            old(self).inside(x as int, y as int),
            disk != Disk::Empty,
        ensures
            old(self).placed(disk, x as int, y as int, *final(self)),
            final(self).player == old(self).player,
    {
        let ghost before = *self;
        self.put(disk, x, y);
        let mut inc_y: isize = -1;
        while inc_y <= 1
            invariant
                before.wf(),
                before.inside(x as int, y as int),
                disk != Disk::Empty,
                self.wf(),
                self.same_size(before),
                -1 <= inc_y <= 2,
                forall|a: int, b: int|
                    before.inside(a, b) ==> #[trigger] self.at(a, b) == if (a == x && b == y)
                        || before.turned_before(disk, x as int, y as int, -1, inc_y as int, a, b) {
                        disk
                    } else {
                        before.at(a, b)
                    },
            decreases 2 - inc_y,
        {
            let mut inc_x: isize = -1;
            while inc_x <= 1
                invariant
                    before.wf(),
                    before.inside(x as int, y as int),
                    disk != Disk::Empty,
                    self.wf(),
                    self.same_size(before),
                    -1 <= inc_y <= 1,
                    -1 <= inc_x <= 2,
                    forall|a: int, b: int|
                        before.inside(a, b) ==> #[trigger] self.at(a, b) == if (a == x && b == y)
                            || before.turned_before(
                            disk,
                            x as int,
                            y as int,
                            inc_x as int,
                            inc_y as int,
                            a,
                            b,
                        ) {
                            disk
                        } else {
                            before.at(a, b)
                        },
                decreases 2 - inc_x,
            {
                let ghost current = *self;
                if !(inc_x == 0 && inc_y == 0) {
                    proof {
                        before.lemma_ray_untouched(
                            current,
                            disk,
                            x as int,
                            y as int,
                            inc_x as int,
                            inc_y as int,
                        );
                    }
                    self.update_adjacent_disks(
                        disk,
                        x as isize + inc_x,
                        y as isize + inc_y,
                        inc_x,
                        inc_y,
                    );
                }
                proof {
                    assert forall|a: int, b: int| before.inside(a, b) implies #[trigger] self.at(
                        a,
                        b,
                    ) == if (a == x && b == y) || before.turned_before(
                        disk,
                        x as int,
                        y as int,
                        inc_x + 1,
                        inc_y as int,
                        a,
                        b,
                    ) {
                        disk
                    } else {
                        before.at(a, b)
                    } by {
                        before.lemma_turned_step(
                            disk,
                            x as int,
                            y as int,
                            inc_x as int,
                            inc_y as int,
                            a,
                            b,
                        );
                    }
                }
                inc_x += 1;
            }
            proof {
                assert forall|a: int, b: int| before.inside(a, b) implies (before.turned_before(
                    disk,
                    x as int,
                    y as int,
                    2,
                    inc_y as int,
                    a,
                    b,
                ) <==> before.turned_before(disk, x as int, y as int, -1, inc_y + 1, a, b)) by {
                    before.lemma_turned_row(disk, x as int, y as int, inc_y as int, a, b);
                }
            }
            inc_y += 1;
        }
        proof {
            assert forall|a: int, b: int| before.inside(a, b) implies (before.turned_before(
                disk,
                x as int,
                y as int,
                -1,
                2,
                a,
                b,
            ) <==> before.turned(disk, x as int, y as int, a, b)) by {
                before.lemma_turned_all(disk, x as int, y as int, a, b);
            }
        }
    }

    /// What has been turned over before the step after `(sx, sy)` is what
    /// has been turned over before `(sx, sy)` and what is turned over along
    /// `(sx, sy)`, if that is a step.
    pub proof fn lemma_turned_step(
        &self,
        disk: Disk,
        x: int,
        y: int,
        sx: int,
        sy: int,
        a: int,
        b: int,
    )
        ensures
            self.turned_before(disk, x, y, sx + 1, sy, a, b) <==> (self.turned_before(
                disk,
                x,
                y,
                sx,
                sy,
                a,
                b,
            ) || (is_step(sx, sy) && self.turned_along(disk, x, y, sx, sy, a, b))),
    {
        if self.turned_before(disk, x, y, sx + 1, sy, a, b) {
            let (dx, dy) = choose|dx: int, dy: int|
                is_step(dx, dy) && step_before(dx, dy, sx + 1, sy) && #[trigger] self.turned_along(
                    disk,
                    x,
                    y,
                    dx,
                    dy,
                    a,
                    b,
                );
            if !(dx == sx && dy == sy) {
                assert(step_before(dx, dy, sx, sy));
            }
        }
        if self.turned_before(disk, x, y, sx, sy, a, b) {
            let (dx, dy) = choose|dx: int, dy: int|
                is_step(dx, dy) && step_before(dx, dy, sx, sy) && #[trigger] self.turned_along(
                    disk,
                    x,
                    y,
                    dx,
                    dy,
                    a,
                    b,
                );
            assert(step_before(dx, dy, sx + 1, sy));
        }
        if is_step(sx, sy) && self.turned_along(disk, x, y, sx, sy, a, b) {
            assert(step_before(sx, sy, sx + 1, sy));
        }
    }

    /// What has been turned over at the end of a row of steps is what has
    /// been turned over at the start of the next row.
    pub proof fn lemma_turned_row(&self, disk: Disk, x: int, y: int, sy: int, a: int, b: int)
        ensures
            self.turned_before(disk, x, y, 2, sy, a, b) <==> self.turned_before(
                disk,
                x,
                y,
                -1,
                sy + 1,
                a,
                b,
            ),
    {
        if self.turned_before(disk, x, y, 2, sy, a, b) {
            let (dx, dy) = choose|dx: int, dy: int|
                is_step(dx, dy) && step_before(dx, dy, 2, sy) && #[trigger] self.turned_along(
                    disk,
                    x,
                    y,
                    dx,
                    dy,
                    a,
                    b,
                );
            assert(step_before(dx, dy, -1, sy + 1));
        }
        if self.turned_before(disk, x, y, -1, sy + 1, a, b) {
            let (dx, dy) = choose|dx: int, dy: int|
                is_step(dx, dy) && step_before(dx, dy, -1, sy + 1) && #[trigger] self.turned_along(
                    disk,
                    x,
                    y,
                    dx,
                    dy,
                    a,
                    b,
                );
            assert(step_before(dx, dy, 2, sy));
        }
    }

    /// After the last step everything has been turned over that is turned
    /// over at all.
    pub proof fn lemma_turned_all(&self, disk: Disk, x: int, y: int, a: int, b: int)
        ensures
            self.turned_before(disk, x, y, -1, 2, a, b) <==> self.turned(disk, x, y, a, b),
    {
        if self.turned(disk, x, y, a, b) {
            let (dx, dy) = choose|dx: int, dy: int|
                is_step(dx, dy) && #[trigger] self.turned_along(disk, x, y, dx, dy, a, b);
            assert(step_before(dx, dy, -1, 2));
        }
    }

    /// While `disk` is being placed on `(x, y)`, the squares from there on
    /// in a direction still hold what they held before, as long as that
    /// direction has not had its turn.
    pub proof fn lemma_ray_untouched(
        &self,
        current: Board,
        disk: Disk,
        x: int,
        y: int,
        dx: int,
        dy: int,
    )
        requires
            self.wf(),
            self.inside(x, y),
            is_step(dx, dy),
            current.same_size(*self),
            forall|a: int, b: int|
                self.inside(a, b) ==> #[trigger] current.at(a, b) == if (a == x && b == y)
                    || self.turned_before(disk, x, y, dx, dy, a, b) {
                    disk
                } else {
                    self.at(a, b)
                },
        ensures
            current.closed_line(disk, x + dx, y + dy, dx, dy) == self.closed_line(
                disk,
                x + dx,
                y + dy,
                dx,
                dy,
            ),
    {
        assert forall|j: int|
            0 <= j && self.inside(
                toward(x + dx, dx, j),
                toward(y + dy, dy, j),
            ) implies #[trigger] self.at(toward(x + dx, dx, j), toward(y + dy, dy, j)) == current.at(
            toward(x + dx, dx, j),
            toward(y + dy, dy, j),
        ) by {
            let a = toward(x + dx, dx, j);
            let b = toward(y + dy, dy, j);
            if self.turned_before(disk, x, y, dx, dy, a, b) {
                let (ex, ey) = choose|ex: int, ey: int|
                    is_step(ex, ey) && step_before(ex, ey, dx, dy) && #[trigger] self.turned_along(
                        disk,
                        x,
                        y,
                        ex,
                        ey,
                        a,
                        b,
                    );
                assert(false);
            }
        }
        self.lemma_same_line(current, disk, x + dx, y + dy, dx, dy);
    }

    /// A board with the same squares and the same side to move.
    pub fn duplicate(&self) -> (copy: Self)
        requires
            self.wf(),
        ensures
            copy.wf(),
            copy.same_size(*self),
            forall|x: int, y: int| self.inside(x, y) ==> #[trigger] copy.at(x, y) == self.at(x, y),
    {
        let mut disks: Vec<Vec<Disk>> = Vec::new();
        let mut y: usize = 0;
        while y < self.height
            invariant
                self.wf(),
                y <= self.height,
                disks.len() == y,
                forall|r: int| 0 <= r < y ==> (#[trigger] disks[r]).len() == self.width,
                forall|r: int, x: int|
                    0 <= r < y && 0 <= x < self.width ==> #[trigger] disks[r][x] == self.at(x, r),
            decreases self.height - y,
        {
            let mut column: Vec<Disk> = Vec::new();
            let mut x: usize = 0;
            while x < self.width
                invariant
                    self.wf(),
                    y < self.height,
                    x <= self.width,
                    column.len() == x,
                    forall|c: int| 0 <= c < x ==> #[trigger] column[c] == self.at(c, y as int),
                decreases self.width - x,
            {
                column.push(self.disks[y][x]);
                x += 1;
            }
            disks.push(column);
            y += 1;
        }
        Self { width: self.width, height: self.height, disks, player: self.player }
    }

    /// The board after the side to move has placed its disk on `(x, y)`;
    /// the other side is then to move. Whether the move is legal is not
    /// asked.
    pub fn play(&self, x: usize, y: usize) -> (next_board: Board)
        requires
            self.wf(),
            self.inside(x as int, y as int),
            self.player == 0 || self.player == 1,
        ensures
            self.placed(self.mover_disk(), x as int, y as int, next_board),
            next_board.player == 1 - self.player,
    {
        let mut next_board = self.duplicate();
        let ghost copy = next_board;
        next_board.update(self.player_disk(), x, y);
        let ghost updated = next_board;
        next_board.player = next_board.next_player();
        proof {
            let disk = self.mover_disk();
            assert(copy.placed(disk, x as int, y as int, updated));
            assert(next_board.disks == updated.disks);
            assert forall|a: int, b: int| self.inside(a, b) implies #[trigger] next_board.at(a, b)
                == if (a == x && b == y) || self.turned(disk, x as int, y as int, a, b) {
                disk
            } else {
                self.at(a, b)
            } by {
                self.lemma_same_turned(copy, disk, x as int, y as int, a, b);
                assert(copy.inside(a, b));
                assert(next_board.at(a, b) == updated.at(a, b));
            }
        }
        next_board
    }

    /// Two boards with the same squares turn over the same disks.
    pub proof fn lemma_same_turned(&self, other: Board, disk: Disk, x: int, y: int, a: int, b: int)
        requires
            self.width == other.width,
            self.height == other.height,
            forall|p: int, q: int| self.inside(p, q) ==> #[trigger] self.at(p, q) == other.at(p, q),
        ensures
            self.turned(disk, x, y, a, b) == other.turned(disk, x, y, a, b),
    {
        if self.turned(disk, x, y, a, b) {
            let (dx, dy) = choose|dx: int, dy: int|
                is_step(dx, dy) && #[trigger] self.turned_along(disk, x, y, dx, dy, a, b);
            self.lemma_same_line(other, disk, x + dx, y + dy, dx, dy);
            assert(other.turned_along(disk, x, y, dx, dy, a, b));
        }
        if other.turned(disk, x, y, a, b) {
            let (dx, dy) = choose|dx: int, dy: int|
                is_step(dx, dy) && #[trigger] other.turned_along(disk, x, y, dx, dy, a, b);
            self.lemma_same_line(other, disk, x + dx, y + dy, dx, dy);
            assert(self.turned_along(disk, x, y, dx, dy, a, b));
        }
    }

    /// Whether `(x, y)` comes before `(a, b)` where the squares are taken row
    /// by row.
    pub open spec fn square_before(x: int, y: int, a: int, b: int) -> bool {
        y < b || (y == b && x < a)
    }

    /// The squares on which the side to move may place a disk, row by row
    /// from the top and in each row from the left.
    pub fn legal_moves(&self) -> (res: Vec<(usize, usize)>)
        requires
            self.wf(),
            self.player == 0 || self.player == 1,
        ensures
            forall|i: int|
                0 <= i < res.len() ==> self.inside((#[trigger] res[i]).0 as int, res[i].1 as int)
                    && self.legal(self.mover_disk(), res[i].0 as int, res[i].1 as int),
            forall|x: int, y: int|
                self.inside(x, y) && #[trigger] self.legal(self.mover_disk(), x, y) ==> res@.contains(
                    (x as usize, y as usize),
                ),
            forall|i: int, j: int|
                0 <= i < j < res.len() ==> Self::square_before(
                    res[i].0 as int,
                    res[i].1 as int,
                    res[j].0 as int,
                    res[j].1 as int,
                ),
    {
        let mut res: Vec<(usize, usize)> = Vec::new();
        let mut y: usize = 0;
        while y < self.height
            invariant
                self.wf(),
                self.player == 0 || self.player == 1,
                y <= self.height,
                forall|i: int|
                    0 <= i < res.len() ==> self.inside((#[trigger] res[i]).0 as int, res[i].1 as int)
                        && res[i].1 < y && self.legal(
                        self.mover_disk(),
                        res[i].0 as int,
                        res[i].1 as int,
                    ),
                forall|a: int, b: int|
                    self.inside(a, b) && b < y && #[trigger] self.legal(self.mover_disk(), a, b)
                        ==> res@.contains((a as usize, b as usize)),
                forall|i: int, j: int|
                    0 <= i < j < res.len() ==> Self::square_before(
                        res[i].0 as int,
                        res[i].1 as int,
                        res[j].0 as int,
                        res[j].1 as int,
                    ),
            decreases self.height - y,
        {
            let mut x: usize = 0;
            while x < self.width
                invariant
                    self.wf(),
                    self.player == 0 || self.player == 1,
                    y < self.height,
                    x <= self.width,
                    forall|i: int|
                        0 <= i < res.len() ==> self.inside(
                            (#[trigger] res[i]).0 as int,
                            res[i].1 as int,
                        ) && Self::square_before(res[i].0 as int, res[i].1 as int, x as int, y as int)
                            && self.legal(self.mover_disk(), res[i].0 as int, res[i].1 as int),
                    forall|a: int, b: int|
                        self.inside(a, b) && Self::square_before(a, b, x as int, y as int)
                            && #[trigger] self.legal(self.mover_disk(), a, b) ==> res@.contains(
                            (a as usize, b as usize),
                        ),
                    forall|i: int, j: int|
                        0 <= i < j < res.len() ==> Self::square_before(
                            res[i].0 as int,
                            res[i].1 as int,
                            res[j].0 as int,
                            res[j].1 as int,
                        ),
                decreases self.width - x,
            {
                let ghost listed = res@;
                if self.is_legal_move(self.player_disk(), x, y) {
                    res.push((x, y));
                    assert(res@[res.len() - 1] == (x, y));
                }
                proof {
                    assert forall|a: int, b: int|
                        self.inside(a, b) && Self::square_before(a, b, x + 1, y as int)
                            && #[trigger] self.legal(
                            self.mover_disk(),
                            a,
                            b,
                        ) implies res@.contains((a as usize, b as usize)) by {
                        if a == x && b == y {
                            assert(res@[res.len() - 1] == (x, y));
                        } else {
                            assert(listed.contains((a as usize, b as usize)));
                            let i = choose|i: int|
                                0 <= i < listed.len() && listed[i] == (a as usize, b as usize);
                            assert(res@[i] == (a as usize, b as usize));
                        }
                    }
                }
                x += 1;
            }
            y += 1;
        }
        res
    }

    /// The disk of the side to move: black for 0, white otherwise.
    pub open spec fn mover_disk(&self) -> Disk {
        if self.player == 0 {
            Disk::Black
        } else {
            Disk::White
        }
    }

    /// Puts `disk` on the square `(x, y)` and leaves the rest as it is.
    fn put(&mut self, disk: Disk, x: usize, y: usize)
        requires
            old(self).wf(),
            old(self).inside(x as int, y as int),
        ensures
            final(self).wf(),
            final(self).same_size(*old(self)),
            forall|a: int, b: int|
                old(self).inside(a, b) ==> #[trigger] final(self).at(a, b) == if a == x && b == y {
                    disk
                } else {
                    old(self).at(a, b)
                },
    {
        self.disks[y][x] = disk;
    }

    /// Whether the board is as large as it says, with no side beyond
    /// `MAX_SIDE`.
    pub fn is_sound(&self) -> (sound: bool)
        ensures
            sound == self.wf(),
    {
        if self.width > MAX_SIDE || self.height > MAX_SIDE || self.disks.len() != self.height {
            return false;
        }
        let mut y: usize = 0;
        while y < self.height
            invariant
                y <= self.height,
                self.disks.len() == self.height,
                forall|r: int| 0 <= r < y ==> (#[trigger] self.disks[r]).len() == self.width,
            decreases self.height - y,
        {
            if self.disks[y].len() != self.width {
                return false;
            }
            y += 1;
        }
        true
    }

    /// The disk of the side to move: black for 0, white for 1.
    pub fn player_disk(&self) -> (disk: Disk)
        requires
            self.player == 0 || self.player == 1,
        ensures
            disk == self.mover_disk(),
    {
        if self.player == 0 {
            Disk::Black
        } else {
            Disk::White
        }
    }

    /// The side that moves after the side to move: 1 after 0, and 0 after 1.
    pub fn next_player(&self) -> (next: i32)
        requires
            self.player >= -0x7fff_fffe,
        ensures
            next == 1 - self.player,
    {
        1 - self.player
    }

    /// Whether no square is empty.
    pub open spec fn full(&self) -> bool {
        forall|x: int, y: int| self.inside(x, y) ==> #[trigger] self.at(x, y) != Disk::Empty
    }

    /// Whether no square is empty.
    pub fn is_game_ended(&self) -> (full: bool)
        requires
            self.wf(),
        ensures
            full == self.full(),
    {
        let mut y: usize = 0;
        while y < self.height
            invariant
                self.wf(),
                y <= self.height,
                forall|x: int, r: int|
                    0 <= x < self.width && 0 <= r < y ==> #[trigger] self.at(x, r) != Disk::Empty,
            decreases self.height - y,
        {
            let mut x: usize = 0;
            while x < self.width
                invariant
                    self.wf(),
                    y < self.height,
                    x <= self.width,
                    forall|c: int| 0 <= c < x ==> #[trigger] self.at(c, y as int) != Disk::Empty,
                decreases self.width - x,
            {
                if self.disks[y][x] == Disk::Empty {
                    assert(self.inside(x as int, y as int) && self.at(x as int, y as int) == Disk::Empty);
                    return false;
                }
                x += 1;
            }
            y += 1;
        }
        true
    }

    /// The numbers of black and of white disks, in this order.
    pub fn num_disk(&self) -> (counts: (i32, i32))
        requires
            self.wf(),
        ensures
            counts.0 == self.count(Disk::Black),
            counts.1 == self.count(Disk::White),
    {
        let mut white: i32 = 0;
        let mut black: i32 = 0;
        let mut y: usize = 0;
        while y < self.height
            invariant
                self.wf(),
                y <= self.height,
                black == self.count_before(Disk::Black, 0, y as int),
                white == self.count_before(Disk::White, 0, y as int),
                0 <= black <= y * self.width,
                0 <= white <= y * self.width,
            decreases self.height - y,
        {
            let mut x: usize = 0;
            while x < self.width
                invariant
                    self.wf(),
                    y < self.height,
                    x <= self.width,
                    black == self.count_before(Disk::Black, x as int, y as int),
                    white == self.count_before(Disk::White, x as int, y as int),
                    0 <= black <= y * self.width + x,
                    0 <= white <= y * self.width + x,
                decreases self.width - x,
            {
                assert(y * self.width + x < 0x7fff * 0x7fff + 0x7fff) by (nonlinear_arith)
                    requires
                        y < 0x7fff,
                        self.width <= 0x7fff,
                        x < 0x7fff,
                ;
                match self.disks[y][x] {
                    Disk::White => white += 1,
                    Disk::Black => black += 1,
                    _ => {},
                }
                x += 1;
            }
            assert((y + 1) * self.width == y * self.width + self.width) by (nonlinear_arith);
            y += 1;
        }
        (black, white)
    }

    /// The side with more disks: 0 for black, 1 for white, 2 if they have the
    /// same number.
    pub fn winner(&self) -> (side: i32)
        requires
            self.wf(),
        ensures
            side == if self.count(Disk::Black) > self.count(Disk::White) {
                0int
            } else if self.count(Disk::White) > self.count(Disk::Black) {
                1int
            } else {
                2int
            },
    {
        let (black, white) = self.num_disk();
        if black > white {
            0
        } else if white > black {
            1
        } else {
            2
        }
    }

    /// The snapshot of the board: one string for each row from the top down,
    /// with `'0'` for a black disk, `'1'` for a white one and `'.'` for an
    /// empty square.
    pub fn to_strings(&self) -> (rows: Vec<String>)
        requires
            self.wf(),
        ensures
            self.shown_as(lines(rows@)),
    {
        let mut res: Vec<String> = Vec::new();
        let mut y: usize = 0;
        while y < self.height
            invariant
                self.wf(),
                y <= self.height,
                res.len() == y,
                forall|r: int| 0 <= r < y ==> (#[trigger] res[r])@.len() == self.width,
                forall|x: int, r: int|
                    0 <= x < self.width && 0 <= r < y ==> res[r]@[x] == char_of(#[trigger] self.at(x, r)),
            decreases self.height - y,
        {
            let mut s = String::new();
            let mut x: usize = 0;
            while x < self.width
                invariant
                    self.wf(),
                    y < self.height,
                    x <= self.width,
                    s@.len() == x,
                    forall|c: int| 0 <= c < x ==> s@[c] == char_of(#[trigger] self.at(c, y as int)),
                decreases self.width - x,
            {
                proof {
                    reveal_strlit("0");
                    reveal_strlit("1");
                    reveal_strlit(".");
                }
                if self.disks[y][x] == Disk::Black {
                    s.append("0");
                } else if self.disks[y][x] == Disk::White {
                    s.append("1");
                } else {
                    s.append(".");
                }
                x += 1;
            }
            res.push(s);
            y += 1;
        }
        res
    }
}

impl Default for Board {
    /// The board at the start of a game: eight by eight, the four middle
    /// squares held crosswise, black to move.
    fn default() -> (board: Self)
        ensures
            board.wf(),
            board.width == 8,
            board.height == 8,
            board.player == 0,
            forall|x: int, y: int|
                board.inside(x, y) ==> #[trigger] board.at(x, y) == if (x == 3 && y == 3) || (x == 4
                    && y == 4) {
                    Disk::White
                } else if (x == 4 && y == 3) || (x == 3 && y == 4) {
                    Disk::Black
                } else {
                    Disk::Empty
                },
    {
        let mut board = Board::new(8, 8, 0);
        board.put(Disk::White, 3, 3);
        board.put(Disk::Black, 4, 3);
        board.put(Disk::Black, 3, 4);
        board.put(Disk::White, 4, 4);
        board
    }
}

/// A well-formed snapshot, read as a board and shown again, is the same
/// snapshot.
pub proof fn lemma_round_trip(rows: Seq<Seq<char>>, board: Board, shown: Seq<Seq<char>>)
    requires
        well_formed(rows),
        board.read_from(rows),
        board.shown_as(shown),
    ensures
        shown == rows,
{
    assert forall|y: int| 0 <= y < rows.len() implies shown[y] == rows[y] by {
        assert(shown[y].len() == rows[y].len());
        assert forall|x: int| 0 <= x < rows[y].len() implies shown[y][x] == rows[y][x] by {
            assert(board.inside(x, y));
            assert(Some(board.at(x, y)) == disk_of(rows[y][x]));
        }
        assert(shown[y] =~= rows[y]);
    }
    assert(shown =~= rows);
}

} // verus!
