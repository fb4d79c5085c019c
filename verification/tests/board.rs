use othello::bitboard::BitBoard;
use othello::board::{coordinate, Board, Disk};

fn rows(lines: &[&str]) -> Vec<String> {
    lines.iter().map(|line| line.to_string()).collect()
}

const START: [&str; 8] = [
    "........", "........", "........", "...10...", "...01...", "........", "........",
    "........",
];

const MIDDLE: [&str; 8] = [
    "........", "..0.....", "..01....", "..011...", "..0.1...", "........", "........",
    "........",
];

#[test]
fn opponent_is_the_other_colour() {
    assert_eq!(Disk::Black.opponent(), Disk::White);
    assert_eq!(Disk::White.opponent(), Disk::Black);
    assert_eq!(Disk::Empty.opponent(), Disk::Empty);
}

#[test]
fn coordinate_reads_letter_and_digit() {
    assert_eq!(coordinate("a1"), (0, 0));
    assert_eq!(coordinate("c4"), (2, 3));
    assert_eq!(coordinate("h8"), (7, 7));
    assert_eq!(coordinate("d3 and more"), (3, 2));
}

#[test]
fn new_board_is_empty() {
    let board = Board::new(3, 2, 1);
    assert_eq!(board.width, 3);
    assert_eq!(board.height, 2);
    assert_eq!(board.player, 1);
    assert_eq!(board.disks, vec![vec![Disk::Empty; 3]; 2]);
    assert!(board.is_sound());
    assert_eq!(board.to_strings(), rows(&["...", "..."]));
}

#[test]
fn new_board_without_squares() {
    let board = Board::new(0, 0, 0);
    assert!(board.disks.is_empty());
    assert!(board.is_game_ended());
    assert_eq!(board.num_disk(), (0, 0));
}

#[test]
fn default_board_is_the_start_position() {
    let board = Board::default();
    assert_eq!(board.width, 8);
    assert_eq!(board.height, 8);
    assert_eq!(board.player, 0);
    assert_eq!(board.to_strings(), rows(&START));
    assert_eq!(board.disks[3][3], Disk::White);
    assert_eq!(board.disks[3][4], Disk::Black);
    assert_eq!(board.disks[4][3], Disk::Black);
    assert_eq!(board.disks[4][4], Disk::White);
    assert_eq!(board.num_disk(), (2, 2));
}

#[test]
fn from_strings_reads_every_square() {
    let board = Board::from_strings(rows(&["0.1", "1.0"]), 1);
    assert_eq!(board.width, 3);
    assert_eq!(board.height, 2);
    assert_eq!(board.player, 1);
    assert_eq!(
        board.disks,
        vec![
            vec![Disk::Black, Disk::Empty, Disk::White],
            vec![Disk::White, Disk::Empty, Disk::Black],
        ]
    );
}

#[test]
fn from_strings_leaves_out_what_lies_beyond_the_first_row() {
    let board = Board::from_strings(rows(&["01", "10?"]), 0);
    assert_eq!(board.width, 2);
    assert_eq!(board.to_strings(), rows(&["01", "10"]));
}

#[test]
fn snapshot_round_trip() {
    for lines in [rows(&START), rows(&MIDDLE), rows(&["0"]), rows(&["", ""]), rows(&["01.", ".10"])] {
        for player in [0, 1] {
            let board = Board::from_strings(lines.clone(), player);
            assert_eq!(board.to_strings(), lines);
            assert_eq!(board.player, player);
        }
    }
}

#[test]
fn player_disk_is_black_for_the_first_side() {
    assert_eq!(Board::new(8, 8, 0).player_disk(), Disk::Black);
    assert_eq!(Board::new(8, 8, 1).player_disk(), Disk::White);
}

#[test]
fn next_player_is_the_other_side() {
    assert_eq!(Board::new(8, 8, 0).next_player(), 1);
    assert_eq!(Board::new(8, 8, 1).next_player(), 0);
}

#[test]
fn the_game_is_over_when_the_board_is_full() {
    assert!(Board::from_strings(rows(&["01", "10"]), 0).is_game_ended());
    assert!(!Board::from_strings(rows(&["01", "1."]), 0).is_game_ended());
    assert!(!Board::default().is_game_ended());
    // A board on which nobody can move is not over as long as a square is
    // empty.
    assert!(!Board::from_strings(rows(&["0."]), 0).is_game_ended());
}

#[test]
fn legal_squares_at_the_start() {
    let board = Board::default();
    assert!(board.is_legal_move(Disk::Black, 3, 2));
    assert!(board.is_legal_move(Disk::Black, 2, 3));
    assert!(board.is_legal_move(Disk::Black, 5, 4));
    assert!(board.is_legal_move(Disk::Black, 4, 5));
    assert!(!board.is_legal_move(Disk::Black, 4, 2));
    assert!(!board.is_legal_move(Disk::Black, 0, 0));
    assert!(!board.is_legal_move(Disk::Black, 3, 3));
    assert!(!board.is_legal_move(Disk::Black, 4, 3));
    assert!(board.is_legal_move(Disk::White, 4, 2));
    assert!(board.is_legal_move(Disk::White, 5, 3));
    assert!(board.is_legal_move(Disk::White, 2, 4));
    assert!(board.is_legal_move(Disk::White, 3, 5));
    assert!(!board.is_legal_move(Disk::White, 3, 2));
}

#[test]
fn legal_moves_go_row_by_row() {
    let board = Board::default();
    assert_eq!(board.legal_moves(), vec![(3, 2), (2, 3), (5, 4), (4, 5)]);
    let white = Board::from_strings(rows(&START), 1);
    assert_eq!(white.legal_moves(), vec![(4, 2), (5, 3), (2, 4), (3, 5)]);
    let middle = Board::from_strings(rows(&MIDDLE), 0);
    assert_eq!(middle.legal_moves(), vec![(4, 1), (4, 2), (5, 3), (5, 4), (5, 5)]);
    let middle = Board::from_strings(rows(&MIDDLE), 1);
    assert_eq!(middle.legal_moves(), vec![(1, 0), (1, 1), (1, 2), (1, 3), (1, 4), (1, 5)]);
}

#[test]
fn no_legal_moves_on_a_board_of_one_colour() {
    assert!(Board::from_strings(rows(&["0..", "..."]), 0).legal_moves().is_empty());
    assert!(Board::from_strings(rows(&["0..", "..."]), 1).legal_moves().is_empty());
}

#[test]
fn play_turns_the_closed_line_over() {
    let board = Board::default();
    let next = board.play(2, 3);
    assert_eq!(
        next.to_strings(),
        rows(&[
            "........", "........", "........", "..000...", "...01...", "........", "........",
            "........",
        ])
    );
    assert_eq!(next.player, 1);
    assert_eq!(next.num_disk(), (4, 1));
    // The board that was played on is as it was.
    assert_eq!(board.to_strings(), rows(&START));
    assert_eq!(board.player, 0);
    let third = next.play(2, 2);
    assert_eq!(
        third.to_strings(),
        rows(&[
            "........", "........", "..1.....", "..010...", "...01...", "........", "........",
            "........",
        ])
    );
    assert_eq!(third.player, 0);
    assert_eq!(third.num_disk(), (3, 3));
}

#[test]
fn play_turns_over_in_several_directions() {
    let board = Board::from_strings(rows(&MIDDLE), 1);
    let next = board.play(1, 2);
    assert_eq!(
        next.to_strings(),
        rows(&[
            "........", "..0.....", ".111....", "..011...", "..0.1...", "........", "........",
            "........",
        ])
    );
}

#[test]
fn play_leaves_an_open_line_alone() {
    let board = Board::from_strings(rows(&[".11.", "...."]), 0);
    let next = board.play(0, 0);
    assert_eq!(next.to_strings(), rows(&["011.", "...."]));
    assert_eq!(next.player, 1);
}

#[test]
fn num_disk_counts_black_first() {
    assert_eq!(Board::from_strings(rows(&["000", "1.."]), 0).num_disk(), (3, 1));
    assert_eq!(Board::from_strings(rows(&MIDDLE), 0).num_disk(), (4, 4));
}

#[test]
fn winner_is_the_side_with_more_disks() {
    assert_eq!(Board::from_strings(rows(&["000", "1.."]), 0).winner(), 0);
    assert_eq!(Board::from_strings(rows(&["0.1", "1.."]), 0).winner(), 1);
    assert_eq!(Board::default().winner(), 2);
}

#[test]
fn duplicate_is_a_board_of_its_own() {
    let board = Board::default();
    let mut copy = board.duplicate();
    assert_eq!(copy.to_strings(), board.to_strings());
    assert_eq!(copy.player, board.player);
    copy.disks[0][0] = Disk::Black;
    assert_eq!(board.disks[0][0], Disk::Empty);
}

#[test]
fn is_sound_asks_for_rows_of_one_width() {
    let mut board = Board::default();
    assert!(board.is_sound());
    board.disks[2].pop();
    assert!(!board.is_sound());
    let mut board = Board::default();
    board.height = 9;
    assert!(!board.is_sound());
}

#[test]
fn the_board_and_the_masks_agree_on_the_legal_squares() {
    for lines in [rows(&START), rows(&MIDDLE)] {
        for player in [0, 1] {
            let board = Board::from_strings(lines.clone(), player);
            let masks = BitBoard::from_strings(lines.clone(), player);
            let (mover, waiting) = masks.curr_board();
            let legal = masks.legal_move_bits(mover, waiting);
            for y in 0..8 {
                for x in 0..8 {
                    let bit = 0x8000_0000_0000_0000u64 >> (y * 8 + x);
                    assert_eq!(board.is_legal_move(board.player_disk(), x, y), legal & bit != 0);
                }
            }
        }
    }
}

#[test]
fn the_board_and_the_masks_agree_on_a_move() {
    let board = Board::from_strings(rows(&MIDDLE), 1);
    let masks = BitBoard::from_strings(rows(&MIDDLE), 1);
    for (x, y) in board.legal_moves() {
        let bit = 0x8000_0000_0000_0000u64 >> (y * 8 + x);
        assert_eq!(board.play(x, y).to_strings(), masks.play(bit).to_strings());
    }
}
