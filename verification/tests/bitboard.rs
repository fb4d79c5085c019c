use othello::bitboard::BitBoard;
use othello::grid::vertical_mirror;
use othello::random::RandomSource;

fn rows(lines: &[&str]) -> Vec<String> {
    lines.iter().map(|line| line.to_string()).collect()
}

fn start() -> BitBoard {
    BitBoard::from_strings(
        rows(&[
            "........", "........", "........", "...10...", "...01...", "........", "........",
            "........",
        ]),
        0,
    )
}

/// Black can move nowhere, white can move to the third square of the top row.
fn stuck() -> BitBoard {
    BitBoard::from_strings(rows(&["10......"]), 0)
}

fn star() -> BitBoard {
    BitBoard::from_strings(
        rows(&[
            "0..0..0.", ".1.1.1..", "..111...", "011.1110", "..111...", ".1.1.1..", "0..0..0.",
            "...0....",
        ]),
        0,
    )
}

#[test]
fn new_bitboard_is_empty() {
    let board = BitBoard::new(1);
    assert_eq!(board.black, 0);
    assert_eq!(board.white, 0);
    assert_eq!(board.player, 1);
    assert_eq!(board.legal_move_bits(board.black, board.white), 0);
    assert!(board.is_game_ended());
}

#[test]
fn from_strings_reads_the_start_position() {
    let board = start();
    assert_eq!(board.black, 0x0000_0008_1000_0000);
    assert_eq!(board.white, 0x0000_0010_0800_0000);
    assert_eq!(board.player, 0);
}

#[test]
fn from_strings_puts_the_first_character_on_the_top_bit() {
    let board = BitBoard::from_strings(rows(&["0......1", "", "x1"]), 1);
    assert_eq!(board.black, 0x8000_0000_0000_0000);
    assert_eq!(board.white, 0x0100_0000_0000_0000 | 0x0000_4000_0000_0000);
    assert_eq!(board.player, 1);
}

#[test]
fn from_strings_of_nothing_is_the_empty_board() {
    let board = BitBoard::from_strings(Vec::new(), 0);
    assert_eq!(board.black, 0);
    assert_eq!(board.white, 0);
}

#[test]
fn to_strings_shows_what_from_strings_read() {
    let lines = rows(&[
        "0..0..0.", ".1.1.1..", "..111...", "011.1110", "..111...", ".1.1.1..", "0..0..0.",
        "...0....",
    ]);
    let board = BitBoard::from_strings(lines.clone(), 0);
    assert_eq!(board.to_strings(), lines);
    let again = BitBoard::from_strings(board.to_strings(), 0);
    assert_eq!(again.black, board.black);
    assert_eq!(again.white, board.white);
}

#[test]
fn to_strings_of_the_empty_board_is_eight_rows_of_dots() {
    assert_eq!(BitBoard::new(0).to_strings(), vec!["........".to_string(); 8]);
}

#[test]
fn start_position_has_four_legal_moves() {
    let board = start();
    let (player, opponent) = board.curr_board();
    assert_eq!(board.legal_move_bits(player, opponent), 0x0000_1020_0408_0000);
    let moves = board.legal_moves(player, opponent);
    assert_eq!(moves.len(), 4);
    assert_eq!(moves, vec![1u64 << 19, 1u64 << 26, 1u64 << 37, 1u64 << 44]);
}

#[test]
fn start_position_has_four_legal_moves_for_white_too() {
    let board = start();
    assert_eq!(board.legal_move_bits(board.white, board.black), 0x0000_0804_2010_0000);
    assert_eq!(
        board.legal_moves(board.white, board.black),
        vec![1u64 << 20, 1u64 << 29, 1u64 << 34, 1u64 << 43]
    );
}

#[test]
fn legal_moves_rise_and_avoid_held_squares() {
    let board = star();
    let (player, opponent) = board.curr_board();
    let moves = board.legal_moves(player, opponent);
    assert_eq!(moves, vec![1u64 << (63 - 27)]);
    for pair in moves.windows(2) {
        assert!(pair[0] < pair[1]);
    }
    for position in moves {
        assert_eq!(position.count_ones(), 1);
        assert_eq!(position & (board.black | board.white), 0);
    }
}

#[test]
fn a_line_does_not_wrap_around_the_edge() {
    // The white disk at the end of the top row and the black one at the start
    // of the second row are neighbours in the mask, not on the board.
    let board = BitBoard::from_strings(rows(&["......01", "0......."]), 0);
    assert_eq!(board.legal_move_bits(board.black, board.white), 0);
    let across = BitBoard::from_strings(rows(&[".......1", "0.......", "1......."]), 0);
    assert_eq!(across.legal_move_bits(across.black, across.white), 0x0000_0080_0000_0000);
}

#[test]
fn a_line_of_six_is_found() {
    let board = BitBoard::from_strings(rows(&["0111111."]), 0);
    assert_eq!(board.legal_move_bits(board.black, board.white), 0x0100_0000_0000_0000);
    assert_eq!(board.legal_move_bits(board.white, board.black), 0);
    let down = BitBoard::from_strings(rows(&["0", "1", "1", "1", "1", "1", "1", "."]), 0);
    assert_eq!(down.legal_move_bits(down.black, down.white), 0x0000_0000_0000_0080);
}

#[test]
fn single_flip_move_leaves_five_disks() {
    let board = start();
    let next = board.play(1u64 << 37);
    assert_eq!(next.black, 0x0000_0038_1000_0000);
    assert_eq!(next.white, 0x0000_0000_0800_0000);
    assert_eq!(next.player, 1);
    assert_eq!((next.black | next.white).count_ones(), 5);
    assert_eq!(next.black & next.white, 0);
    // One disk has changed colour: white has lost one, black has won it and
    // the disk that was played.
    assert_eq!(board.white.count_ones() - next.white.count_ones(), 1);
    assert_eq!(next.black.count_ones() - board.black.count_ones(), 2);
}

#[test]
fn update_flips_in_all_eight_directions() {
    let board = star();
    let (player, opponent) = board.curr_board();
    assert_eq!(player, 0x9200_0081_0000_9210);
    assert_eq!(opponent, 0x0054_386e_3854_0000);
    let (black, white) = board.update(player, opponent, 1u64 << (63 - 27));
    assert_eq!(black, 0x9254_38ff_3854_9210);
    assert_eq!(white, 0);
}

#[test]
fn update_leaves_an_open_line_alone() {
    // White disks to the right of the square, with no black disk behind them.
    let board = BitBoard::from_strings(rows(&[".11.....", "01......"]), 0);
    let (black, white) = board.update(board.black, board.white, 0x8000_0000_0000_0000);
    assert_eq!(white, board.white);
    assert_eq!(black, board.black | 0x8000_0000_0000_0000);
}

#[test]
fn update_for_white_flips_black() {
    let board = start();
    let (white, black) = board.update(board.white, board.black, 1u64 << 43);
    assert_eq!(white, 0x0000_0810_0800_0000 | (1u64 << 35));
    assert_eq!(black, 0x0000_0000_1000_0000);
}

#[test]
fn transfer_moves_a_square_one_step() {
    let board = BitBoard::new(0);
    let centre = 1u64 << (63 - 27);
    assert_eq!(board.transfer(centre, 0), 1u64 << (63 - 19));
    assert_eq!(board.transfer(centre, 1), 1u64 << (63 - 20));
    assert_eq!(board.transfer(centre, 2), 1u64 << (63 - 28));
    assert_eq!(board.transfer(centre, 3), 1u64 << (63 - 36));
    assert_eq!(board.transfer(centre, 4), 1u64 << (63 - 35));
    assert_eq!(board.transfer(centre, 5), 1u64 << (63 - 34));
    assert_eq!(board.transfer(centre, 6), 1u64 << (63 - 26));
    assert_eq!(board.transfer(centre, 7), 1u64 << (63 - 18));
}

#[test]
fn transfer_drops_what_leaves_the_board() {
    let board = BitBoard::new(0);
    let top_left = 0x8000_0000_0000_0000u64;
    let bottom_right = 1u64;
    for k in [0, 1, 5, 6, 7] {
        assert_eq!(board.transfer(top_left, k), 0);
    }
    for k in [1, 2, 3, 4, 5] {
        assert_eq!(board.transfer(bottom_right, k), 0);
    }
    assert_eq!(board.transfer(top_left, 2), 0x4000_0000_0000_0000);
    assert_eq!(board.transfer(top_left, 3), 0x0040_0000_0000_0000);
    assert_eq!(board.transfer(top_left, 4), 0x0080_0000_0000_0000);
    assert_eq!(board.transfer(bottom_right, 0), 0x100);
    assert_eq!(board.transfer(bottom_right, 6), 0x2);
    assert_eq!(board.transfer(bottom_right, 7), 0x200);
    assert_eq!(board.transfer(u64::MAX, 8), 0);
    assert_eq!(board.transfer(u64::MAX, -1), 0);
}

#[test]
fn transfer_moves_whole_masks() {
    let board = BitBoard::new(0);
    assert_eq!(board.transfer(u64::MAX, 0), 0xffff_ffff_ffff_ff00);
    assert_eq!(board.transfer(u64::MAX, 2), 0x7f7f_7f7f_7f7f_7f7f);
    assert_eq!(board.transfer(u64::MAX, 4), 0x00ff_ffff_ffff_ffff);
    assert_eq!(board.transfer(u64::MAX, 6), 0xfefe_fefe_fefe_fefe);
}

#[test]
fn curr_board_puts_the_side_to_move_first() {
    let board = start();
    assert_eq!(board.curr_board(), (board.black, board.white));
    let other = board.pass();
    assert_eq!(other.curr_board(), (board.white, board.black));
}

#[test]
fn next_player_of_a_position_is_the_other_side() {
    assert_eq!(BitBoard::new(0).next_player(), 1);
    assert_eq!(BitBoard::new(1).next_player(), 0);
}

#[test]
fn the_game_is_not_over_at_the_start() {
    assert!(!start().is_game_ended());
}

#[test]
fn the_game_is_over_when_neither_side_can_move() {
    // Empty squares remain, but one colour alone is on the board.
    let board = BitBoard::from_strings(rows(&["0......."]), 1);
    assert!(board.is_game_ended());
    assert_eq!(board.legal_move_bits(board.black, board.white), 0);
    assert_eq!(board.legal_move_bits(board.white, board.black), 0);
}

#[test]
fn the_game_goes_on_when_one_side_can_move() {
    let board = stuck();
    assert_eq!(board.legal_move_bits(board.black, board.white), 0);
    assert_eq!(board.legal_move_bits(board.white, board.black), 0x2000_0000_0000_0000);
    assert!(!board.is_game_ended());
}

#[test]
fn a_pass_leaves_the_board_as_it_is() {
    let board = stuck();
    let (player, opponent) = board.curr_board();
    assert!(board.legal_moves(player, opponent).is_empty());
    let next = board.pass();
    assert_eq!(next.black, board.black);
    assert_eq!(next.white, board.white);
    assert_eq!(next.player, 1);
}

#[test]
fn winner_counts_the_disks() {
    // Three black disks in the low bits, one white disk on the top bit: the
    // number of disks decides, not the value of the mask.
    let black_ahead = BitBoard { black: 0b111, white: 0x8000_0000_0000_0000, player: 0 };
    assert_eq!(black_ahead.winner(), 0);
    let white_ahead = BitBoard { black: 0x8000_0000_0000_0000, white: 0b11, player: 0 };
    assert_eq!(white_ahead.winner(), 1);
    assert_eq!(start().winner(), 2);
    assert_eq!(BitBoard::new(0).winner(), 2);
}

#[test]
fn playout_of_a_finished_game_is_its_result() {
    let black_only = BitBoard::from_strings(rows(&["0......."]), 0);
    assert_eq!(black_only.playout(), 1);
    assert_eq!(black_only.pass().playout(), -1);
    let even = BitBoard { black: 1, white: 1 << 63, player: 0 };
    assert_eq!(even.playout(), 0);
}

#[test]
fn playout_passes_for_a_side_that_cannot_move() {
    // Black passes, white takes the black disk, and white has won.
    let board = stuck();
    assert_eq!(board.playout(), -1);
    assert_eq!(board.pass().playout(), 1);
}

#[test]
fn playout_result_is_a_win_a_loss_or_a_draw() {
    let board = start();
    for _ in 0..20 {
        let reward = board.playout();
        assert!(reward == -1 || reward == 0 || reward == 1);
    }
}

#[test]
fn playout_with_the_same_seed_gives_the_same_result() {
    let board = start();
    for seed in 0..10u64 {
        let mut first = RandomSource::seeded(seed);
        let mut second = RandomSource::seeded(seed);
        let results: Vec<i32> = (0..5).map(|_| board.playout_with(&mut first)).collect();
        let again: Vec<i32> = (0..5).map(|_| board.playout_with(&mut second)).collect();
        assert_eq!(results, again);
    }
}

#[test]
fn a_random_game_keeps_the_colours_apart_and_adds_one_disk_a_move() {
    for seed in 0..5u64 {
        let mut source = RandomSource::seeded(seed);
        let mut board = start();
        let mut turns = 0;
        while !board.is_game_ended() {
            let (player, opponent) = board.curr_board();
            let moves = board.legal_moves(player, opponent);
            let disks = (board.black | board.white).count_ones();
            match source.below(moves.len()) {
                None => {
                    let next = board.pass();
                    assert_eq!((next.black, next.white), (board.black, board.white));
                    board = next;
                }
                Some(index) => {
                    let position = moves[index];
                    assert_eq!(position & (board.black | board.white), 0);
                    board = board.play(position);
                    assert_eq!((board.black | board.white).count_ones(), disks + 1);
                }
            }
            assert_eq!(board.black & board.white, 0);
            turns += 1;
            assert!(turns <= 128);
        }
        assert_eq!(board.legal_move_bits(board.black, board.white), 0);
        assert_eq!(board.legal_move_bits(board.white, board.black), 0);
    }
}

#[test]
fn below_stays_below() {
    let mut source = RandomSource::seeded(7);
    assert_eq!(source.below(0), None);
    assert_eq!(source.below(1), Some(0));
    let mut seen = [false; 3];
    for _ in 0..200 {
        let index = source.below(3).unwrap();
        assert!(index < 3);
        seen[index] = true;
    }
    assert_eq!(seen, [true; 3]);
    let mut thread = RandomSource::thread();
    for _ in 0..50 {
        assert!(thread.below(5).unwrap() < 5);
    }
    assert_eq!(thread.below(0), None);
}

#[test]
fn seeded_sources_repeat_their_choices() {
    let mut first = RandomSource::seeded(42);
    let mut second = RandomSource::seeded(42);
    for _ in 0..100 {
        assert_eq!(first.below(1000), second.below(1000));
    }
}

#[test]
fn vertical_mirror_turns_the_rows_over() {
    assert_eq!(vertical_mirror(0x0102_0304_0506_0708), 0x0807_0605_0403_0201);
    assert_eq!(vertical_mirror(0), 0);
    assert_eq!(vertical_mirror(-1), -1);
    assert_eq!(vertical_mirror(0xff), 0xff00_0000_0000_0000u64 as i64);
    // The start position is its own mirror image but for the colours.
    let board = start();
    assert_eq!(vertical_mirror(board.black as i64) as u64, board.white);
    let top = BitBoard::from_strings(rows(&["01.0...."]), 0);
    let bottom = BitBoard::from_strings(rows(&["", "", "", "", "", "", "", "01.0...."]), 0);
    assert_eq!(vertical_mirror(top.black as i64) as u64, bottom.black);
    assert_eq!(vertical_mirror(top.white as i64) as u64, bottom.white);
}
